use astraport::fixed_point::{fp_div, fp_exp, fp_ln, fp_mul, mul_div, MathError, ONE, SCALE};
use astraport::table::{OrderedTable, Table};
use astraport::values::{to_big_endian, to_twos_complement, Address, Symbol, U256};

#[test]
fn fixed_point_multiplies_and_divides() {
    assert_eq!(fp_mul(2 * ONE, 3 * ONE), Ok(6 * ONE));
    assert_eq!(fp_div(ONE, 4 * ONE), Ok(SCALE / 4));
    assert_eq!(fp_div(-ONE, 3 * ONE), Ok(-333_333_333_333));
    assert_eq!(mul_div(7, 3, 2), Ok(10));
    assert_eq!(fp_div(ONE, 0), Err(MathError::DivideByZero));
    assert_eq!(fp_mul(i128::MAX, 2), Err(MathError::Overflow));
}

#[test]
fn the_exponential_and_the_logarithm_are_inverse() {
    assert_eq!(fp_exp(0), Ok(ONE));
    let e = fp_exp(ONE).unwrap();
    assert!((e - 2_718_281_828_459).abs() < 1_000);
    let back = fp_ln(e).unwrap();
    assert!((back - ONE).abs() < 1_000);
    assert_eq!(fp_exp(-1), Err(MathError::NegativeInput));
    assert_eq!(fp_ln(ONE - 1), Err(MathError::NegativeInput));
}

#[test]
fn a_symbol_keeps_its_text() {
    let symbol = Symbol::new("XLM_usdc9").unwrap();
    assert_eq!(symbol.to_bytes(), b"XLM_usdc9".to_vec());
    assert_eq!(symbol, Symbol::from_text("XLM_usdc9"));
    assert_ne!(symbol, Symbol::from_text("XLM_usdc"));
    assert_eq!(Symbol::new("not a symbol"), None);
    assert_eq!(Symbol::new("a23456789012345678901234567890123"), None);
    assert!(Symbol::from_text("ab") < Symbol::from_text("b"));
}

#[test]
fn numbers_become_bytes() {
    assert_eq!(to_big_endian(258, 4), vec![0, 0, 1, 2]);
    assert_eq!(to_big_endian(to_twos_complement(-1), 16), vec![255; 16]);
    assert_eq!(
        to_big_endian(to_twos_complement(i128::MIN), 16),
        i128::MIN.to_be_bytes().to_vec()
    );
    assert_eq!(
        to_big_endian(to_twos_complement(-12_345), 16),
        (-12_345i128).to_be_bytes().to_vec()
    );
}

#[test]
fn wide_numbers_narrow_where_they_fit() {
    assert_eq!(U256::from_u32(9).to_u128(), Some(9));
    assert_eq!(U256 { hi: 1, lo: 0 }.to_u128(), None);
}

#[test]
fn an_address_has_an_xdr_form() {
    let account = Address { is_contract: false, hi: 1, lo: 2 }.to_xdr();
    assert_eq!(account.len(), 44);
    assert_eq!(account[..12].to_vec(), vec![0, 0, 0, 18, 0, 0, 0, 0, 0, 0, 0, 0]);
    let contract = Address { is_contract: true, hi: 1, lo: 2 }.to_xdr();
    assert_eq!(contract.len(), 40);
    assert_eq!(contract[..8].to_vec(), vec![0, 0, 0, 18, 0, 0, 0, 1]);
    assert_eq!(contract[39], 2);
}

#[test]
fn a_table_gives_back_what_was_stored() {
    let mut table: Table<u64, i128> = Table::new();
    assert_eq!(table.get(&1), None);
    table.set(1, 10);
    table.set(2, 20);
    table.set(1, 11);
    assert_eq!(table.get(&1), Some(&11));
    assert_eq!(table.take(&1), Some(11));
    assert!(!table.has(&1));
    assert!(table.has(&2));
}

#[test]
fn an_ordered_table_is_walked_in_order() {
    let mut table: OrderedTable<u64, char> = OrderedTable::new();
    for (key, value) in [(5, 'c'), (1, 'a'), (3, 'b'), (5, 'd')] {
        table.set(key, value);
    }
    let entries: Vec<(u64, char)> = (0..table.len()).map(|i| *table.at(i)).collect();
    assert_eq!(entries, vec![(1, 'a'), (3, 'b'), (5, 'd')]);
    assert_eq!(table.take(&3), Some('b'));
    assert_eq!(table.get(&3), None);
}
