//! How fees are computed, discounted and shared.
use crate::fee::records::{
    Error, FeeStructure, FeeType, FeeWaiver, RevenueRecipient, TierEntry, MAX_RECIPIENTS,
};
use crate::math;
use crate::math::BPS_DENOM;
use crate::values::{Address, Symbol};
use vstd::prelude::*;

verus! {

// ---------------------------------------------------------------------------
// Computing
// ---------------------------------------------------------------------------

/// The rate of the last tier whose threshold an amount reaches.
pub open spec fn tier_rate(tiers: Seq<TierEntry>, amount: int) -> Option<i128>
    decreases tiers.len(),
{
    if tiers.len() == 0 {
        None
    } else if amount >= tiers.last().threshold {
        Some(tiers.last().fee_bps)
    } else {
        tier_rate(tiers.drop_last(), amount)
    }
}

/// `amount * rate / 10,000`.
pub open spec fn share_of(amount: int, rate_bps: int) -> Result<i128, Error> {
    if math::fits(amount * rate_bps) {
        Ok(math::quot(amount * rate_bps, BPS_DENOM as int) as i128)
    } else {
        Err(Error::ArithmeticOverflow)
    }
}

/// The fee of a structure before any bound or discount.
pub open spec fn raw_fee(
    fee_type: FeeType,
    amount_bps: i128,
    tiers: Seq<TierEntry>,
    amount: int,
) -> Result<i128, Error> {
    match fee_type {
        FeeType::Flat => Ok(amount_bps),
        FeeType::Percentage => share_of(amount, amount_bps as int),
        FeeType::Tiered => match tier_rate(tiers, amount) {
            None => Ok(0i128),
            Some(rate) => share_of(amount, rate as int),
        },
    }
}

/// A fee that is not negative and no more than its base.
pub open spec fn bounded_fee(fee: int, base: int) -> int {
    let f = if fee < 0 {
        0
    } else {
        fee
    };
    if f > base {
        base
    } else {
        f
    }
}

/// A fee after a discount.
pub open spec fn discounted(fee: int, discount_bps: int, waived: bool) -> Result<i128, Error> {
    if waived {
        Ok(0i128)
    } else if discount_bps <= 0 {
        Ok(fee as i128)
    } else if !math::fits(fee * (BPS_DENOM - discount_bps)) {
        Err(Error::ArithmeticOverflow)
    } else {
        let net = math::quot(fee * (BPS_DENOM - discount_bps), BPS_DENOM as int);
        Ok(
            if net < 0 {
                0i128
            } else {
                net as i128
            },
        )
    }
}

/// A fee on an amount that is not negative is between nothing and all of it.
pub proof fn fees_are_bounded(fee: int, base: int)
    requires
        0 <= base,
    ensures
        0 <= bounded_fee(fee, base) <= base,
{
}

/// A discount never raises a fee, and a waived fee is nothing.
pub proof fn discounts_never_raise_a_fee(fee: i128, discount_bps: i128, waived: bool)
    requires
        0 <= fee,
        0 <= discount_bps <= BPS_DENOM,
        discounted(fee as int, discount_bps as int, waived) is Ok,
    ensures
        0 <= discounted(fee as int, discount_bps as int, waived)->Ok_0 <= fee,
        waived ==> discounted(fee as int, discount_bps as int, waived)->Ok_0 == 0,
{
    if !waived && discount_bps > 0 {
        let rest = BPS_DENOM - discount_bps;
        assert(0 <= fee * rest <= fee * BPS_DENOM) by (nonlinear_arith)
            requires
                0 <= fee,
                0 <= rest <= BPS_DENOM,
        ;
        math::lemma_quot_monotone(fee * rest, fee * BPS_DENOM, BPS_DENOM as int);
        math::lemma_quot_shrinks(fee * rest, BPS_DENOM as int);
    }
}

fn share(amount: i128, rate_bps: i128) -> (r: Result<i128, Error>)
    ensures
        r == share_of(amount as int, rate_bps as int),
{
    match amount.checked_mul(rate_bps) {
        Some(p) => {
            proof {
                math::lemma_quot_shrinks(p as int, BPS_DENOM as int);
            }
            Ok(p / BPS_DENOM)
        },
        None => Err(Error::ArithmeticOverflow),
    }
}

/// The fee of a tiered structure: the rate of the last tier that the amount
/// reaches, or nothing.
pub fn calculate_tiered_fee(tiers: &Vec<TierEntry>, amount: i128) -> (r: Result<i128, Error>)
    ensures
        r == raw_fee(FeeType::Tiered, 0, tiers@, amount as int),
{
    let mut i: usize = tiers.len();
    assert(tiers@.take(i as int) =~= tiers@);
    while i > 0
        invariant
            i <= tiers@.len(),
            tier_rate(tiers@, amount as int) == tier_rate(tiers@.take(i as int), amount as int),
        decreases i,
    {
        i -= 1;
        let t = tiers[i];
        assert(tiers@.take(i + 1).last() == t);
        assert(tiers@.take(i + 1).drop_last() =~= tiers@.take(i as int));
        if amount >= t.threshold {
            return share(amount, t.fee_bps);
        }
    }
    Ok(0)
}

/// The fee of a structure before any bound or discount.
pub fn compute_raw_fee(
    fee_type: &FeeType,
    amount_bps: i128,
    tiers: &Vec<TierEntry>,
    amount: i128,
) -> (r: Result<i128, Error>)
    ensures
        r == raw_fee(*fee_type, amount_bps, tiers@, amount as int),
{
    match fee_type {
        FeeType::Flat => Ok(amount_bps),
        FeeType::Percentage => share(amount, amount_bps),
        FeeType::Tiered => calculate_tiered_fee(tiers, amount),
    }
}

/// A fee that is not negative and no more than its base.
pub fn clamp_fee(fee: i128, base: i128) -> (r: i128)
    ensures
        r == bounded_fee(fee as int, base as int),
{
    let f = if fee < 0 {
        0
    } else {
        fee
    };
    if f > base {
        base
    } else {
        f
    }
}

/// A fee after a discount.
pub fn apply_discount(gross_fee: i128, discount_bps: i128, waived: bool) -> (r: Result<i128, Error>)
    ensures
        r == discounted(gross_fee as int, discount_bps as int, waived),
{
    if waived {
        Ok(0)
    } else if discount_bps <= 0 {
        Ok(gross_fee)
    } else {
        match gross_fee.checked_mul(BPS_DENOM - discount_bps) {
            Some(p) => {
                proof {
                    math::lemma_quot_shrinks(p as int, BPS_DENOM as int);
                }
                let net = p / BPS_DENOM;
                if net < 0 {
                    Ok(0)
                } else {
                    Ok(net)
                }
            },
            None => Err(Error::ArithmeticOverflow),
        }
    }
}

/// Whether a rate is between 0% and 100%.
pub open spec fn is_rate(bps: int) -> bool {
    0 <= bps <= BPS_DENOM
}

/// Whether tiers ascend and have rates.
pub open spec fn tiers_wf(tiers: Seq<TierEntry>) -> bool {
    &&& forall|i: int| 0 <= i < tiers.len() ==> is_rate((#[trigger] tiers[i]).fee_bps as int)
    &&& forall|i: int, j: int|
        0 <= i < j < tiers.len() ==> (#[trigger] tiers[i]).threshold < (
        #[trigger] tiers[j]).threshold
}

/// Whether a fee structure makes sense: no negative amount or cap, no rate
/// above 100%, and tiers that ascend.
pub open spec fn is_valid(fs: FeeStructure) -> bool {
    &&& fs.amount_bps >= 0
    &&& fs.fee_type == FeeType::Percentage ==> is_rate(fs.amount_bps as int)
    &&& tiers_wf(fs.tiered_entries@)
    &&& fs.fee_cap matches Some(cap) ==> cap >= 0
}

/// Check a fee structure.
pub fn validate_fee_structure(fs: &FeeStructure) -> (r: Result<(), Error>)
    ensures
        r == (if is_valid(*fs) {
            Ok::<(), Error>(())
        } else {
            Err::<(), Error>(Error::InvalidFeeConfiguration)
        }),
{
    if fs.amount_bps < 0 {
        return Err(Error::InvalidFeeConfiguration);
    }
    if fs.fee_type == FeeType::Percentage && fs.amount_bps > BPS_DENOM {
        return Err(Error::InvalidFeeConfiguration);
    }
    if let Some(cap) = fs.fee_cap {
        if cap < 0 {
            return Err(Error::InvalidFeeConfiguration);
        }
    }
    let tiers = &fs.tiered_entries;
    let mut i: usize = 0;
    while i < tiers.len()
        invariant
            i <= tiers@.len(),
            tiers@ == fs.tiered_entries@,
            forall|k: int| 0 <= k < i ==> is_rate((#[trigger] tiers@[k]).fee_bps as int),
            forall|k: int, j: int|
                0 <= k < j < i ==> (#[trigger] tiers@[k]).threshold < (
                #[trigger] tiers@[j]).threshold,
        decreases tiers@.len() - i,
    {
        if tiers[i].fee_bps < 0 || tiers[i].fee_bps > BPS_DENOM {
            assert(!is_rate(tiers@[i as int].fee_bps as int));
            return Err(Error::InvalidFeeConfiguration);
        }
        if i > 0 && tiers[i - 1].threshold >= tiers[i].threshold {
            assert(!(tiers@[i - 1].threshold < tiers@[i as int].threshold));
            return Err(Error::InvalidFeeConfiguration);
        }
        i += 1;
    }
    Ok(())
}

// ---------------------------------------------------------------------------
// Waivers
// ---------------------------------------------------------------------------

/// Whether two waivers count as the same one: by their addresses where both
/// have one, else by their portfolios.
pub open spec fn is_same_waiver(a: FeeWaiver, b: FeeWaiver) -> bool {
    match (a.address, b.address) {
        (Some(x), Some(y)) => x == y,
        (None, None) => a.portfolio_id == b.portfolio_id,
        _ => false,
    }
}

/// Whether two waivers count as the same one.
pub fn waiver_matches(a: &FeeWaiver, b: &FeeWaiver) -> (r: bool)
    ensures
        r == is_same_waiver(*a, *b),
{
    match (a.address, b.address) {
        (Some(x), Some(y)) => x == y,
        (None, None) => match (a.portfolio_id, b.portfolio_id) {
            (Some(p), Some(q)) => p == q,
            (None, None) => true,
            _ => false,
        },
        _ => false,
    }
}

/// Whether two waivers are for the same address and the same portfolio.
pub fn waiver_same_target(a: &FeeWaiver, b: &FeeWaiver) -> (r: bool)
    ensures
        r == (a.address == b.address && a.portfolio_id == b.portfolio_id),
{
    let same_address = match (a.address, b.address) {
        (Some(x), Some(y)) => x == y,
        (None, None) => true,
        _ => false,
    };
    let same_portfolio = match (a.portfolio_id, b.portfolio_id) {
        (Some(p), Some(q)) => p == q,
        (None, None) => true,
        _ => false,
    };
    same_address && same_portfolio
}

/// Whether a waiver that expires at a time still counts at `now`; 0 stands for
/// never.
pub fn waiver_is_active(expires_at: u64, now: u64) -> (b: bool)
    ensures
        b == (expires_at == 0 || now < expires_at),
{
    if expires_at == 0 {
        return true;
    }
    now < expires_at
}

/// The discount of the first waiver for a portfolio.
pub open spec fn portfolio_discount(waivers: Seq<FeeWaiver>, portfolio_id: Symbol) -> (i128, bool)
    decreases waivers.len(),
{
    if waivers.len() == 0 {
        (0, false)
    } else if waivers[0].portfolio_id == Some(portfolio_id) {
        (waivers[0].discount_bps, waivers[0].waived)
    } else {
        portfolio_discount(waivers.drop_first(), portfolio_id)
    }
}

/// The discount of the first waiver for an address or a portfolio.
pub open spec fn collection_discount(
    waivers: Seq<FeeWaiver>,
    address: Address,
    portfolio_id: Symbol,
) -> (i128, bool)
    decreases waivers.len(),
{
    if waivers.len() == 0 {
        (0, false)
    } else if waivers[0].address == Some(address) || waivers[0].portfolio_id == Some(portfolio_id) {
        (waivers[0].discount_bps, waivers[0].waived)
    } else {
        collection_discount(waivers.drop_first(), address, portfolio_id)
    }
}

/// Whether a waiver is for a portfolio.
fn covers_portfolio(w: &FeeWaiver, portfolio_id: &Symbol) -> (b: bool)
    ensures
        b == (w.portfolio_id == Some(*portfolio_id)),
{
    match w.portfolio_id {
        Some(p) => p == *portfolio_id,
        None => false,
    }
}

/// Whether a waiver is for an address.
fn covers_address(w: &FeeWaiver, address: &Address) -> (b: bool)
    ensures
        b == (w.address == Some(*address)),
{
    match w.address {
        Some(a) => a == *address,
        None => false,
    }
}

/// The discount of the first waiver for a portfolio.
pub fn resolve_waiver_for_portfolio(waivers: &Vec<FeeWaiver>, portfolio_id: &Symbol) -> (r: (
    i128,
    bool,
))
    ensures
        r == portfolio_discount(waivers@, *portfolio_id),
{
    let mut i: usize = 0;
    assert(waivers@.skip(0) =~= waivers@);
    while i < waivers.len()
        invariant
            i <= waivers@.len(),
            portfolio_discount(waivers@, *portfolio_id) == portfolio_discount(
                waivers@.skip(i as int),
                *portfolio_id,
            ),
        decreases waivers@.len() - i,
    {
        let w = waivers[i];
        assert(waivers@.skip(i as int)[0] == w);
        assert(waivers@.skip(i as int).drop_first() =~= waivers@.skip(i + 1));
        if covers_portfolio(&w, portfolio_id) {
            return (w.discount_bps, w.waived);
        }
        i += 1;
    }
    (0, false)
}

/// The discount of the first waiver for an address or a portfolio.
pub fn resolve_waiver_for_collect(
    waivers: &Vec<FeeWaiver>,
    address: &Address,
    portfolio_id: &Symbol,
) -> (r: (i128, bool))
    ensures
        r == collection_discount(waivers@, *address, *portfolio_id),
{
    let mut i: usize = 0;
    assert(waivers@.skip(0) =~= waivers@);
    while i < waivers.len()
        invariant
            i <= waivers@.len(),
            collection_discount(waivers@, *address, *portfolio_id) == collection_discount(
                waivers@.skip(i as int),
                *address,
                *portfolio_id,
            ),
        decreases waivers@.len() - i,
    {
        let w = waivers[i];
        assert(waivers@.skip(i as int)[0] == w);
        assert(waivers@.skip(i as int).drop_first() =~= waivers@.skip(i + 1));
        if covers_address(&w, address) || covers_portfolio(&w, portfolio_id) {
            return (w.discount_bps, w.waived);
        }
        i += 1;
    }
    (0, false)
}

/// One without a waiver of their own pays what an estimate for the portfolio
/// says.
pub proof fn the_portfolio_discount_is_charged(
    waivers: Seq<FeeWaiver>,
    address: Address,
    portfolio_id: Symbol,
)
    requires
        forall|i: int| 0 <= i < waivers.len() ==> (#[trigger] waivers[i]).address != Some(address),
    ensures
        collection_discount(waivers, address, portfolio_id) == portfolio_discount(
            waivers,
            portfolio_id,
        ),
    decreases waivers.len(),
{
    if waivers.len() > 0 {
        let rest = waivers.drop_first();
        assert(waivers[0].address != Some(address));
        assert forall|i: int| 0 <= i < rest.len() implies (#[trigger] rest[i]).address != Some(
            address,
        ) by {
            assert(rest[i] == waivers[i + 1]);
        }
        the_portfolio_discount_is_charged(rest, address, portfolio_id);
    }
}

// ---------------------------------------------------------------------------
// Revenue
// ---------------------------------------------------------------------------

/// All shares together.
pub open spec fn total_shares(recipients: Seq<RevenueRecipient>) -> int
    decreases recipients.len(),
{
    if recipients.len() == 0 {
        0
    } else {
        total_shares(recipients.drop_last()) + recipients.last().share_numerator
    }
}

/// What recipients get before the remainder, rounded down.
pub open spec fn base_shares(
    recipients: Seq<RevenueRecipient>,
    amount: int,
    shares: int,
) -> Seq<(Address, i128)> {
    recipients.map_values(
        |r: RevenueRecipient| (r.address, (r.share_numerator * amount / shares) as i128),
    )
}

/// What payments add up to.
pub open spec fn paid_in_all(payments: Seq<(Address, i128)>) -> int
    decreases payments.len(),
{
    if payments.len() == 0 {
        0
    } else {
        paid_in_all(payments.drop_last()) + payments.last().1
    }
}

/// Whether every share of an amount can be computed.
pub open spec fn can_share(recipients: Seq<RevenueRecipient>, amount: int) -> bool {
    forall|i: int|
        0 <= i < recipients.len() ==> math::fits(
            (#[trigger] recipients[i]).share_numerator * amount,
        )
}

/// An amount shared among recipients; the first one gets what rounding leaves.
pub open spec fn revenue_split(recipients: Seq<RevenueRecipient>, amount: int) -> Result<
    Seq<(Address, i128)>,
    Error,
> {
    let shares = total_shares(recipients);
    if recipients.len() == 0 || amount <= 0 || shares == 0 {
        Ok(Seq::empty())
    } else if !can_share(recipients, amount) {
        Err(Error::ArithmeticOverflow)
    } else {
        let base = base_shares(recipients, amount, shares);
        Ok(
            base.update(
                0,
                (base[0].0, (base[0].1 + (amount - paid_in_all(base))) as i128),
            ),
        )
    }
}

proof fn lemma_total_shares(recipients: Seq<RevenueRecipient>)
    ensures
        0 <= total_shares(recipients) <= recipients.len() * u32::MAX,
    decreases recipients.len(),
{
    if recipients.len() > 0 {
        lemma_total_shares(recipients.drop_last());
        assert(recipients.len() * u32::MAX == (recipients.len() - 1) * u32::MAX + u32::MAX)
            by (nonlinear_arith);
    }
}

proof fn lemma_total_shares_prefix(recipients: Seq<RevenueRecipient>, k: int)
    requires
        0 <= k <= recipients.len(),
    ensures
        total_shares(recipients.take(k)) <= total_shares(recipients),
    decreases recipients.len() - k,
{
    if k == recipients.len() {
        assert(recipients.take(k) =~= recipients);
    } else {
        lemma_total_shares_prefix(recipients, k + 1);
        assert(recipients.take(k + 1).drop_last() =~= recipients.take(k));
    }
}

/// Rounded down, the shares of some recipients are no more than their part of
/// the amount.
proof fn lemma_base_shares(recipients: Seq<RevenueRecipient>, amount: int, shares: int)
    requires
        0 <= amount,
        amount <= i128::MAX,
        0 < shares,
        total_shares(recipients) <= shares,
    ensures
        0 <= paid_in_all(base_shares(recipients, amount, shares)),
        paid_in_all(base_shares(recipients, amount, shares)) * shares <= total_shares(recipients)
            * amount,
        forall|i: int|
            0 <= i < recipients.len() ==> 0 <= (#[trigger] base_shares(
                recipients,
                amount,
                shares,
            )[i]).1 <= amount,
    decreases recipients.len(),
{
    if recipients.len() > 0 {
        let less = recipients.drop_last();
        let last = recipients.last();
        lemma_total_shares(less);
        lemma_base_shares(less, amount, shares);
        let base = base_shares(recipients, amount, shares);
        assert(base.drop_last() =~= base_shares(less, amount, shares));
        let n = last.share_numerator as int;
        let q = n * amount / shares;
        assert(0 <= q <= amount && q * shares <= n * amount) by (nonlinear_arith)
            requires
                0 <= n <= shares,
                0 <= amount,
                0 < shares,
                q == n * amount / shares,
        ;
        let before = paid_in_all(base_shares(less, amount, shares));
        let part = total_shares(less);
        assert((before + q) * shares <= (part + n) * amount) by (nonlinear_arith)
            requires
                before * shares <= part * amount,
                q * shares <= n * amount,
        ;
        assert forall|i: int| 0 <= i < recipients.len() implies 0 <= (#[trigger] base[i]).1
            <= amount by {
            if i < less.len() {
                assert(base[i] == base_shares(less, amount, shares)[i]);
            }
        }
    }
}

proof fn lemma_paid_after_update(payments: Seq<(Address, i128)>, at: int, payment: (Address, i128))
    requires
        0 <= at < payments.len(),
    ensures
        paid_in_all(payments.update(at, payment)) == paid_in_all(payments) - payments[at].1
            + payment.1,
    decreases payments.len(),
{
    let after = payments.update(at, payment);
    if at == payments.len() - 1 {
        assert(after.drop_last() =~= payments.drop_last());
    } else {
        lemma_paid_after_update(payments.drop_last(), at, payment);
        assert(after.drop_last() =~= payments.drop_last().update(at, payment));
    }
}

/// Revenue is shared to the last unit: the payments add up to the amount, and
/// none is negative.
pub proof fn revenue_is_shared_completely(recipients: Seq<RevenueRecipient>, amount: int)
    requires
        0 < amount <= i128::MAX,
        recipients.len() > 0,
        total_shares(recipients) > 0,
        can_share(recipients, amount),
    ensures
        revenue_split(recipients, amount) is Ok,
        paid_in_all(revenue_split(recipients, amount)->Ok_0) == amount,
        revenue_split(recipients, amount)->Ok_0.len() == recipients.len(),
        forall|i: int|
            0 <= i < recipients.len() ==> {
                let payment = #[trigger] revenue_split(recipients, amount)->Ok_0[i];
                payment.0 == recipients[i].address && 0 <= payment.1 <= amount
            },
{
    let shares = total_shares(recipients);
    let base = base_shares(recipients, amount, shares);
    lemma_base_shares(recipients, amount, shares);
    let paid = paid_in_all(base);
    assert(paid <= amount) by (nonlinear_arith)
        requires
            paid * shares <= shares * amount,
            shares > 0,
    ;
    lemma_first_within(base);
    let rest = amount - paid;
    let first = (base[0].0, (base[0].1 + rest) as i128);
    lemma_paid_after_update(base, 0, first);
    let split = revenue_split(recipients, amount)->Ok_0;
    assert forall|i: int| 0 <= i < recipients.len() implies {
        let payment = #[trigger] split[i];
        payment.0 == recipients[i].address && 0 <= payment.1 <= amount
    } by {
        assert(0 <= base[i].1 <= amount);
    }
}

/// A first payment is no more than all of them.
proof fn lemma_first_within(payments: Seq<(Address, i128)>)
    requires
        payments.len() > 0,
        forall|i: int| 0 <= i < payments.len() ==> 0 <= (#[trigger] payments[i]).1,
    ensures
        payments[0].1 <= paid_in_all(payments),
        0 <= paid_in_all(payments),
    decreases payments.len(),
{
    if payments.len() == 1 {
        assert(payments.drop_last() =~= Seq::<(Address, i128)>::empty());
        assert(paid_in_all(payments.drop_last()) == 0);
    } else {
        let less = payments.drop_last();
        assert forall|i: int| 0 <= i < less.len() implies 0 <= (#[trigger] less[i]).1 by {
            assert(less[i] == payments[i]);
        }
        lemma_first_within(less);
        assert(payments[payments.len() - 1].1 >= 0);
    }
}

/// Share an amount among recipients.
pub fn distribute_revenue(recipients: &Vec<RevenueRecipient>, amount: i128) -> (r: Result<
    Vec<(Address, i128)>,
    Error,
>)
    requires
        recipients@.len() <= MAX_RECIPIENTS,
    ensures
        match revenue_split(recipients@, amount as int) {
            Ok(split) => r is Ok && r->Ok_0@ == split,
            Err(e) => r is Err && r->Err_0 == e,
        },
{
    let mut payments: Vec<(Address, i128)> = Vec::new();
    if recipients.len() == 0 || amount <= 0 {
        assert(payments@ =~= Seq::<(Address, i128)>::empty());
        return Ok(payments);
    }
    let ghost all = recipients@;
    let mut shares: i128 = 0;
    let mut i: usize = 0;
    while i < recipients.len()
        invariant
            i <= recipients@.len() <= MAX_RECIPIENTS,
            shares == total_shares(recipients@.take(i as int)),
            0 <= shares <= i * u32::MAX,
        decreases recipients@.len() - i,
    {
        assert(recipients@.take(i + 1).drop_last() =~= recipients@.take(i as int));
        assert(i * u32::MAX <= MAX_RECIPIENTS * u32::MAX) by (nonlinear_arith)
            requires
                0 <= i <= MAX_RECIPIENTS,
        ;
        assert((i + 1) * u32::MAX == i * u32::MAX + u32::MAX) by (nonlinear_arith);
        shares = shares + recipients[i].share_numerator as i128;
        i += 1;
    }
    assert(recipients@.take(i as int) =~= all);
    if shares == 0 {
        assert(payments@ =~= Seq::<(Address, i128)>::empty());
        return Ok(payments);
    }
    let ghost base = base_shares(all, amount as int, shares as int);
    proof {
        lemma_base_shares(all, amount as int, shares as int);
    }
    let mut distributed: i128 = 0;
    let mut k: usize = 0;
    assert(base.take(0) =~= payments@);
    while k < recipients.len()
        invariant
            k <= recipients@.len(),
            recipients@ == all,
            amount > 0,
            shares > 0,
            shares == total_shares(all),
            base == base_shares(all, amount as int, shares as int),
            payments@ == base.take(k as int),
            distributed == paid_in_all(base.take(k as int)),
            0 <= distributed,
            forall|j: int|
                0 <= j < k ==> math::fits((#[trigger] all[j]).share_numerator * amount),
            forall|j: int| 0 <= j < all.len() ==> 0 <= (#[trigger] base[j]).1 <= amount,
            all.len() > 0,
        decreases recipients@.len() - k,
    {
        let rp = recipients[k];
        let product = match (rp.share_numerator as i128).checked_mul(amount) {
            Some(p) => p,
            None => {
                assert(!math::fits(all[k as int].share_numerator * amount));
                assert(!can_share(all, amount as int));
                return Err(Error::ArithmeticOverflow);
            },
        };
        proof {
            assert(base[k as int].1 == product as int / shares as int) by {
                assert(product >= 0) by (nonlinear_arith)
                    requires
                        product == rp.share_numerator * amount,
                        amount > 0,
                        rp.share_numerator >= 0,
                ;
                math::lemma_quot_shrinks(product as int, shares as int);
            }
            assert(base.take(k + 1).drop_last() =~= base.take(k as int));
            lemma_prefix_within(all, amount as int, shares as int, k + 1);
            math::lemma_quot_shrinks(product as int, shares as int);
        }
        let s = product / shares;
        distributed = distributed + s;
        payments.push((rp.address, s));
        assert(payments@ =~= base.take(k + 1));
        k += 1;
    }
    assert(base.take(k as int) =~= base);
    proof {
        lemma_prefix_within(all, amount as int, shares as int, all.len() as int);
        lemma_first_within(base);
    }
    let remainder = amount - distributed;
    let (first_address, first_share) = payments[0];
    payments.set(0, (first_address, first_share + remainder));
    assert(payments@ =~= revenue_split(all, amount as int)->Ok_0);
    Ok(payments)
}

/// The shares of the first recipients are no more than the amount.
proof fn lemma_prefix_within(
    recipients: Seq<RevenueRecipient>,
    amount: int,
    shares: int,
    k: int,
)
    requires
        0 <= k <= recipients.len(),
        0 < amount <= i128::MAX,
        shares == total_shares(recipients),
        shares > 0,
    ensures
        0 <= paid_in_all(base_shares(recipients, amount, shares).take(k)) <= amount,
{
    let some = recipients.take(k);
    lemma_total_shares_prefix(recipients, k);
    lemma_base_shares(some, amount, shares);
    assert(base_shares(some, amount, shares) =~= base_shares(recipients, amount, shares).take(k));
    let paid = paid_in_all(base_shares(some, amount, shares));
    let part = total_shares(some);
    assert(paid <= amount) by (nonlinear_arith)
        requires
            paid * shares <= part * amount,
            part <= shares,
            shares > 0,
            amount > 0,
    ;
}

/// The rate of a tiered fee is that of the last tier that the amount reaches;
/// an amount that reaches none has no rate.
pub proof fn the_last_tier_reached_applies(tiers: Seq<TierEntry>, amount: int, i: int)
    requires
        -1 <= i < tiers.len(),
        i >= 0 ==> tiers[i].threshold <= amount,
        forall|j: int| i < j < tiers.len() ==> amount < (#[trigger] tiers[j]).threshold,
    ensures
        i >= 0 ==> tier_rate(tiers, amount) == Some(tiers[i].fee_bps),
        i < 0 ==> tier_rate(tiers, amount) is None,
    decreases tiers.len(),
{
    if i < tiers.len() - 1 {
        let less = tiers.drop_last();
        assert(amount < tiers[tiers.len() - 1].threshold);
        assert forall|j: int| i < j < less.len() implies amount < (#[trigger] less[j]).threshold by {
            assert(less[j] == tiers[j]);
        }
        the_last_tier_reached_applies(less, amount, i);
    }
}

/// A flat fee is the amount that was set, whatever it is charged on. One in
/// proportion is the rate's share of what it is charged on, in ten-thousandths
/// and rounded down; a tiered one is that with the rate of the tier, and
/// nothing where no tier is reached.
pub proof fn fees_are_as_their_kind_says(
    amount_bps: i128,
    tiers: Seq<TierEntry>,
    amount: int,
)
    requires
        0 <= amount,
        0 <= amount_bps,
    ensures
        raw_fee(FeeType::Flat, amount_bps, tiers, amount) == Ok::<i128, Error>(amount_bps),
        ({
            let fee = raw_fee(FeeType::Percentage, amount_bps, tiers, amount);
            &&& fee is Ok <==> amount * amount_bps <= i128::MAX
            &&& fee matches Ok(f) ==> f * 10_000 <= amount * amount_bps < (f + 1) * 10_000
        }),
        ({
            let fee = raw_fee(FeeType::Tiered, amount_bps, tiers, amount);
            match tier_rate(tiers, amount) {
                None => fee == Ok::<i128, Error>(0),
                Some(rate) => rate >= 0 ==> {
                    &&& fee is Ok <==> amount * rate <= i128::MAX
                    &&& fee matches Ok(f) ==> f * 10_000 <= amount * rate < (f + 1) * 10_000
                },
            }
        }),
{
    lemma_share_is_rounded_down(amount, amount_bps as int);
    match tier_rate(tiers, amount) {
        None => {},
        Some(rate) => if rate >= 0 {
            lemma_share_is_rounded_down(amount, rate as int);
        },
    }
}

proof fn lemma_share_is_rounded_down(amount: int, rate: int)
    requires
        0 <= amount,
        0 <= rate,
    ensures
        share_of(amount, rate) is Ok <==> amount * rate <= i128::MAX,
        share_of(amount, rate) matches Ok(f) ==> f * 10_000 <= amount * rate < (f + 1) * 10_000,
{
    assert(amount * rate >= 0) by (nonlinear_arith)
        requires
            0 <= amount,
            0 <= rate,
    ;
    math::quotients_round_toward_zero(amount * rate, 10_000);
    math::lemma_quot_shrinks(amount * rate, 10_000);
}

/// A fee that is between nothing and what it is charged on is charged as it
/// is; one outside is moved to the nearer bound.
pub proof fn bounds_move_no_fee_within(fee: int, base: int)
    requires
        0 <= base,
    ensures
        0 <= fee <= base ==> bounded_fee(fee, base) == fee,
        fee < 0 ==> bounded_fee(fee, base) == 0,
        fee > base ==> bounded_fee(fee, base) == base,
{
}

/// A discount takes its rate off the fee, in ten-thousandths; what is left is
/// rounded down. No discount leaves the fee as it is, a whole one nothing, and
/// a waived fee is nothing whatever the discount.
pub proof fn discounts_take_their_rate_off(fee: i128, discount_bps: i128, waived: bool)
    requires
        0 <= fee,
        0 <= discount_bps <= 10_000,
        fee * 10_000 <= i128::MAX,
    ensures
        ({
            let r = discounted(fee as int, discount_bps as int, waived);
            &&& r is Ok
            &&& waived ==> r->Ok_0 == 0
            &&& !waived ==> r->Ok_0 * 10_000 <= fee * (10_000 - discount_bps) < (r->Ok_0 + 1)
                * 10_000
            &&& !waived && discount_bps == 0 ==> r->Ok_0 == fee
            &&& !waived && discount_bps == 10_000 ==> r->Ok_0 == 0
        }),
{
    let rest = 10_000 - discount_bps;
    assert(0 <= fee * rest <= fee * 10_000) by (nonlinear_arith)
        requires
            0 <= fee,
            0 <= rest <= 10_000,
    ;
    math::quotients_round_toward_zero(fee * rest, 10_000);
    math::lemma_quot_shrinks(fee * rest, 10_000);
    if discount_bps == 10_000 {
        assert(fee * 0 == 0);
    }
}

/// A fee structure is let through where its amount and its cap are not
/// negative, no rate is above 100%, and each tier begins above the one before.
pub proof fn structures_are_valid_exactly(fs: FeeStructure, i: int)
    ensures
        is_valid(fs) ==> fs.amount_bps >= 0 && (fs.fee_type == FeeType::Percentage ==> fs.amount_bps
            <= 10_000) && (fs.fee_cap matches Some(cap) ==> cap >= 0),
        is_valid(fs) && 0 <= i < fs.tiered_entries@.len() ==> 0 <= fs.tiered_entries@[i].fee_bps
            <= 10_000,
        is_valid(fs) && 0 < i < fs.tiered_entries@.len() ==> fs.tiered_entries@[i - 1].threshold
            < fs.tiered_entries@[i].threshold,
        fs.amount_bps >= 0 && (fs.fee_type == FeeType::Percentage ==> fs.amount_bps <= 10_000)
            && fs.tiered_entries@.len() == 0 && (fs.fee_cap is None || fs.fee_cap->0 >= 0)
            ==> is_valid(fs),
{
    if 0 < i < fs.tiered_entries@.len() {
        let (a, b) = (fs.tiered_entries@[i - 1], fs.tiered_entries@[i]);
        assert(is_valid(fs) ==> a.threshold < b.threshold);
    }
}

/// Waivers for addresses are the same where the addresses are; those without
/// an address are the same where their portfolios are; one with and one
/// without never are.
pub proof fn waivers_are_told_apart(a: FeeWaiver, b: FeeWaiver)
    ensures
        a.address is Some && b.address is Some ==> (is_same_waiver(a, b) <==> a.address->0
            == b.address->0),
        a.address is None && b.address is None ==> (is_same_waiver(a, b) <==> a.portfolio_id
            == b.portfolio_id),
        a.address is Some != b.address is Some ==> !is_same_waiver(a, b),
        is_same_waiver(a, b) == is_same_waiver(b, a),
{
}

/// The first waiver that is for the portfolio, or on collection for the
/// address or the portfolio, sets the discount; without one there is none.
pub proof fn the_first_waiver_applies(
    waivers: Seq<FeeWaiver>,
    address: Address,
    portfolio_id: Symbol,
    i: int,
)
    requires
        0 <= i <= waivers.len(),
    ensures
        (forall|j: int| 0 <= j < i ==> (#[trigger] waivers[j]).portfolio_id != Some(portfolio_id))
            ==> {
            &&& i == waivers.len() ==> portfolio_discount(waivers, portfolio_id) == (0i128, false)
            &&& i < waivers.len() && waivers[i].portfolio_id == Some(portfolio_id)
                ==> portfolio_discount(waivers, portfolio_id) == (
                waivers[i].discount_bps,
                waivers[i].waived,
            )
        },
        (forall|j: int|
            0 <= j < i ==> (#[trigger] waivers[j]).portfolio_id != Some(portfolio_id)
                && waivers[j].address != Some(address)) ==> {
            &&& i == waivers.len() ==> collection_discount(waivers, address, portfolio_id) == (
                0i128,
                false,
            )
            &&& i < waivers.len() && (waivers[i].portfolio_id == Some(portfolio_id)
                || waivers[i].address == Some(address)) ==> collection_discount(
                waivers,
                address,
                portfolio_id,
            ) == (waivers[i].discount_bps, waivers[i].waived)
        },
    decreases waivers.len(),
{
    if i > 0 {
        let rest = waivers.drop_first();
        the_first_waiver_applies(rest, address, portfolio_id, i - 1);
        if forall|j: int|
            0 <= j < i ==> (#[trigger] waivers[j]).portfolio_id != Some(portfolio_id) {
            assert(waivers[0].portfolio_id != Some(portfolio_id));
            assert forall|j: int| 0 <= j < i - 1 implies (#[trigger] rest[j]).portfolio_id != Some(
                portfolio_id,
            ) by {
                assert(rest[j] == waivers[j + 1]);
            }
        }
        if forall|j: int|
            0 <= j < i ==> (#[trigger] waivers[j]).portfolio_id != Some(portfolio_id)
                && waivers[j].address != Some(address) {
            assert(waivers[0].portfolio_id != Some(portfolio_id));
            assert forall|j: int| 0 <= j < i - 1 implies (#[trigger] rest[j]).portfolio_id != Some(
                portfolio_id,
            ) && rest[j].address != Some(address) by {
                assert(rest[j] == waivers[j + 1]);
            }
        }
    }
}

/// Shares and payments add up over those who have them.
pub proof fn shares_and_payments_add_up(
    recipients: Seq<RevenueRecipient>,
    r: RevenueRecipient,
    payments: Seq<(Address, i128)>,
    p: (Address, i128),
)
    ensures
        total_shares(Seq::empty()) == 0,
        total_shares(recipients.push(r)) == total_shares(recipients) + r.share_numerator,
        paid_in_all(Seq::empty()) == 0,
        paid_in_all(payments.push(p)) == paid_in_all(payments) + p.1,
{
    assert(recipients.push(r).drop_last() =~= recipients);
    assert(payments.push(p).drop_last() =~= payments);
}

/// Revenue is shared in proportion: everyone but the first gets the part of
/// the amount that their shares are of all shares, rounded down; the first
/// gets at least that, and no other unit is kept back.
pub proof fn revenue_is_shared_in_proportion(
    recipients: Seq<RevenueRecipient>,
    amount: int,
    i: int,
)
    requires
        0 < amount <= i128::MAX,
        0 <= i < recipients.len(),
        total_shares(recipients) > 0,
        can_share(recipients, amount),
    ensures
        revenue_split(recipients, amount) is Ok,
        ({
            let paid = revenue_split(recipients, amount)->Ok_0[i];
            let all = total_shares(recipients);
            let mine = recipients[i].share_numerator as int;
            &&& paid.0 == recipients[i].address
            &&& mine * amount < (paid.1 + 1) * all
            &&& i > 0 ==> paid.1 * all <= mine * amount
        }),
        paid_in_all(revenue_split(recipients, amount)->Ok_0) == amount,
{
    revenue_is_shared_completely(recipients, amount);
    let all = total_shares(recipients);
    let base = base_shares(recipients, amount, all);
    lemma_base_shares(recipients, amount, all);
    let mine = recipients[i].share_numerator as int;
    assert(mine * amount >= 0) by (nonlinear_arith)
        requires
            mine >= 0,
            amount > 0,
    ;
    math::quotients_round_toward_zero(mine * amount, all);
    math::lemma_quot_shrinks(mine * amount, all);
    assert(math::fits(recipients[i].share_numerator * amount));
    assert(base[i].1 == mine * amount / all);
    let paid = paid_in_all(base);
    assert(paid <= amount) by (nonlinear_arith)
        requires
            paid * all <= all * amount,
            all > 0,
    ;
    lemma_first_within(base);
    let split = revenue_split(recipients, amount)->Ok_0;
    assert(split[i].1 >= base[i].1);
    assert((base[i].1 + 1) * all <= (split[i].1 + 1) * all) by (nonlinear_arith)
        requires
            base[i].1 <= split[i].1,
            all > 0,
    ;
}

/// Nothing is shared where there is nothing to share or nobody to share it
/// with.
pub proof fn nothing_is_shared_without_recipients(
    recipients: Seq<RevenueRecipient>,
    amount: int,
)
    requires
        recipients.len() == 0 || amount <= 0 || total_shares(recipients) == 0,
    ensures
        revenue_split(recipients, amount) is Ok,
        revenue_split(recipients, amount)->Ok_0.len() == 0,
{
}

} // verus!
