use astraport::fee::contract::FeeManagementContract;
use astraport::fee::engine::{
    apply_discount, calculate_tiered_fee, distribute_revenue, waiver_is_active,
};
use astraport::fee::records::{
    Error, FeeCalculationResult, FeeCategory, FeeType, FeeWaiver, RevenueRecipient, TierEntry,
    MAX_HISTORY, MAX_RECIPIENTS,
};
use astraport::math::BPS_DENOM;
use astraport::values::{Address, Symbol};

fn address(n: u128) -> Address {
    Address { is_contract: false, hi: 1, lo: n }
}

fn symbol(text: &str) -> Symbol {
    Symbol::from_text(text)
}

fn contract() -> FeeManagementContract {
    let mut contract = FeeManagementContract::new();
    contract.initialize(address(1)).unwrap();
    contract
}

#[test]
fn test_clamp_fee_negative() {
    assert_eq!(FeeManagementContract::clamp_fee(-100, 1_000), 0);
}

#[test]
fn test_clamp_fee_zero() {
    assert_eq!(FeeManagementContract::clamp_fee(0, 1_000), 0);
}

#[test]
fn test_clamp_fee_within_bounds() {
    assert_eq!(FeeManagementContract::clamp_fee(500, 1_000), 500);
}

#[test]
fn test_clamp_fee_exceeds_amount() {
    assert_eq!(FeeManagementContract::clamp_fee(1_500, 1_000), 1_000);
}

#[test]
fn test_waiver_matches_same_portfolio() {
    let pid = symbol("TEST");
    let w1 = FeeWaiver { address: None, portfolio_id: Some(pid), discount_bps: 100, waived: false };
    let w2 = FeeWaiver { address: None, portfolio_id: Some(pid), discount_bps: 200, waived: true };
    assert!(FeeManagementContract::waiver_matches(&w1, &w2));
}

#[test]
fn test_waiver_no_match_different_portfolio() {
    let w1 = FeeWaiver {
        address: None,
        portfolio_id: Some(symbol("P1")),
        discount_bps: 0,
        waived: false,
    };
    let w2 = FeeWaiver {
        address: None,
        portfolio_id: Some(symbol("P2")),
        discount_bps: 0,
        waived: false,
    };
    assert!(!FeeManagementContract::waiver_matches(&w1, &w2));
}

#[test]
fn test_waiver_matches_both_none() {
    let w1 = FeeWaiver { address: None, portfolio_id: None, discount_bps: 0, waived: false };
    let w2 = FeeWaiver { address: None, portfolio_id: None, discount_bps: 100, waived: true };
    assert!(FeeManagementContract::waiver_matches(&w1, &w2));
}

#[test]
fn test_waiver_no_match_address_vs_none() {
    let w1 = FeeWaiver {
        address: None,
        portfolio_id: Some(symbol("X1")),
        discount_bps: 0,
        waived: false,
    };
    let w2 = FeeWaiver { address: None, portfolio_id: None, discount_bps: 0, waived: false };
    assert!(!FeeManagementContract::waiver_matches(&w1, &w2));
}

#[test]
fn test_error_codes() {
    assert_eq!(Error::FeeNotFound.code(), 1);
    assert_eq!(Error::FeeInactive.code(), 2);
    assert_eq!(Error::InvalidFeeConfiguration.code(), 3);
    assert_eq!(Error::ArithmeticOverflow.code(), 4);
    assert_eq!(Error::FeeWaiverNotFound.code(), 5);
    assert_eq!(Error::TooManyRecipients.code(), 6);
}

#[test]
fn test_fee_type_equality() {
    assert_eq!(FeeType::Flat, FeeType::Flat);
    assert_eq!(FeeType::Percentage, FeeType::Percentage);
    assert_eq!(FeeType::Tiered, FeeType::Tiered);
    assert_ne!(FeeType::Flat, FeeType::Percentage);
}

#[test]
fn test_fee_calculation_result_clone() {
    let result = FeeCalculationResult {
        fee_id: symbol("T"),
        gross_amount: 1_000_000,
        discount_bps: 500,
        fee_amount: 95_000,
        waived: false,
    };
    let cloned = result.clone();
    assert_eq!(result.fee_id, cloned.fee_id);
    assert_eq!(result.fee_amount, cloned.fee_amount);
}

#[test]
fn test_constants() {
    assert_eq!(BPS_DENOM, 10_000);
    assert_eq!(MAX_HISTORY, 100);
    assert_eq!(MAX_RECIPIENTS, 20);
}

#[test]
fn a_percentage_is_charged_and_discounted() {
    let mut fees = contract();
    let id = symbol("mgmt");
    fees.set_fee_structure_simple(id, FeeType::Percentage, 250, vec![], true).unwrap();
    let quote = fees.calculate_fee(id, 100_000).unwrap();
    assert_eq!(quote.fee_amount, 2_500);
    fees.set_fee_waiver(None, Some(symbol("p")), 2_000, false).unwrap();
    let quote = fees.calculate_portfolio_fee(symbol("p"), id, 100_000).unwrap();
    assert_eq!(quote.discount_bps, 2_000);
    assert_eq!(quote.fee_amount, 2_000);
    fees.set_fee_waiver(None, Some(symbol("p")), 0, true).unwrap();
    assert_eq!(fees.calculate_portfolio_fee(symbol("p"), id, 100_000).unwrap().fee_amount, 0);
    fees.remove_fee_waiver(None, Some(symbol("p")));
    assert_eq!(
        fees.calculate_portfolio_fee(symbol("p"), id, 100_000).unwrap().fee_amount,
        2_500
    );
}

#[test]
fn a_flat_fee_never_exceeds_the_amount() {
    let mut fees = contract();
    let id = symbol("flat");
    fees.set_fee_structure_simple(id, FeeType::Flat, 300, vec![], true).unwrap();
    assert_eq!(fees.calculate_fee(id, 1_000).unwrap().fee_amount, 300);
    assert_eq!(fees.calculate_fee(id, 100).unwrap().fee_amount, 100);
}

#[test]
fn an_unknown_or_inactive_fee_is_refused() {
    let mut fees = contract();
    assert_eq!(fees.calculate_fee(symbol("none"), 10), Err(Error::FeeNotFound));
    let id = symbol("off");
    fees.set_fee_structure_simple(id, FeeType::Flat, 5, vec![], true).unwrap();
    fees.set_fee_active(id, false).unwrap();
    assert_eq!(fees.calculate_fee(id, 10), Err(Error::FeeInactive));
    assert_eq!(fees.set_portfolio_fee(symbol("p"), symbol("none")), Err(Error::FeeNotFound));
}

#[test]
fn a_fee_that_cannot_be_is_refused() {
    let mut fees = contract();
    assert_eq!(
        fees.set_fee_structure(
            symbol("bad"),
            FeeType::Percentage,
            10_001,
            vec![],
            FeeCategory::Custom,
            true,
            None,
        ),
        Err(Error::InvalidFeeConfiguration)
    );
    assert_eq!(fees.list_fee_structures(), vec![]);
}

#[test]
fn a_fee_that_is_out_of_range_overflows() {
    let mut fees = contract();
    let id = symbol("pct");
    fees.set_fee_structure_simple(id, FeeType::Percentage, 10_000, vec![], true).unwrap();
    assert_eq!(fees.calculate_fee(id, i128::MAX), Err(Error::ArithmeticOverflow));
}

#[test]
fn a_tier_holds_from_its_threshold_on() {
    let tiers = vec![
        TierEntry { threshold: 0, fee_bps: 100 },
        TierEntry { threshold: 10_000, fee_bps: 50 },
    ];
    assert_eq!(calculate_tiered_fee(&tiers, 9_999), Ok(99));
    assert_eq!(calculate_tiered_fee(&tiers, 10_000), Ok(50));
}

#[test]
fn a_discount_never_raises_a_fee() {
    assert_eq!(apply_discount(1_000, 0, false), Ok(1_000));
    assert_eq!(apply_discount(1_000, 2_500, false), Ok(750));
    assert_eq!(apply_discount(1_000, 10_000, false), Ok(0));
    assert_eq!(apply_discount(1_000, 0, true), Ok(0));
}

#[test]
fn collecting_a_fee_is_recorded() {
    let mut fees = contract();
    let id = symbol("mgmt");
    fees.set_fee_structure_simple(id, FeeType::Percentage, 100, vec![], true).unwrap();
    assert_eq!(fees.collect_fee(address(2), id, symbol("p"), 5_000, 77), Ok(50));
    assert_eq!(fees.get_total_collected(), 50);
    assert_eq!(fees.get_fee_history_count(), 1);
    let history = fees.get_fee_history(0);
    assert_eq!(history[0].calculated_fee, 50);
    assert_eq!(history[0].timestamp, 77);
    assert_eq!(history[0].beneficiary, address(2));
}

#[test]
fn the_fee_history_forgets_the_oldest() {
    let mut fees = contract();
    let id = symbol("flat");
    fees.set_fee_structure_simple(id, FeeType::Flat, 1, vec![], true).unwrap();
    for now in 0..101u64 {
        fees.collect_fee(address(2), id, symbol("p"), 10, now).unwrap();
    }
    assert_eq!(fees.get_fee_history_count(), 100);
    assert_eq!(fees.get_fee_history(0)[0].timestamp, 1);
    assert_eq!(fees.get_fee_history(1)[0].timestamp, 100);
}

#[test]
fn revenue_is_shared_to_the_last_unit() {
    let recipients = vec![
        RevenueRecipient { address: address(1), share_numerator: 1 },
        RevenueRecipient { address: address(2), share_numerator: 1 },
        RevenueRecipient { address: address(3), share_numerator: 1 },
    ];
    let shares = distribute_revenue(&recipients, 100).unwrap();
    let total: i128 = shares.iter().map(|s| s.1).sum();
    assert_eq!(total, 100);
    assert_eq!(shares[0], (address(1), 34));
    assert_eq!(shares[2], (address(3), 33));
    assert_eq!(distribute_revenue(&vec![], 100), Ok(vec![]));
}

#[test]
fn too_many_recipients_are_refused() {
    let mut fees = contract();
    let mut recipients = Vec::new();
    for i in 0..21u128 {
        recipients.push(RevenueRecipient { address: address(i), share_numerator: 1 });
    }
    assert_eq!(fees.set_revenue_recipients(recipients), Err(Error::TooManyRecipients));
    assert_eq!(fees.list_revenue_recipients(), vec![]);
}

#[test]
fn a_second_initialization_is_refused() {
    let mut fees = contract();
    assert_eq!(fees.initialize(address(9)), Err(Error::AlreadyInitialized));
    assert_eq!(fees.get_admin(), address(1));
}

#[test]
fn a_waiver_without_expiry_is_active() {
    assert!(waiver_is_active(0, 1_000));
    assert!(waiver_is_active(1_001, 1_000));
    assert!(!waiver_is_active(999, 1_000));
}
