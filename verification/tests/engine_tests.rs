use stabilis::engine::Stabilis;
use stabilis::fixed::SCALE;
use stabilis::types::{Bucket, StabError};

const STAB: u64 = 99;
const COL_A: u64 = 1;

fn dec(n: i128) -> i128 {
    n * SCALE
}

fn publish_and_setup() -> Stabilis {
    let mut stab_comp = Stabilis::new(STAB);
    stab_comp
        .add_collateral(COL_A, 3 * SCALE / 2, dec(1))
        .unwrap();
    stab_comp
}

fn col_bucket(amount: i128) -> Bucket {
    Bucket { resource: COL_A, amount }
}

#[test]
fn instantiation_deploys() {
    let stab_comp = publish_and_setup();
    assert_eq!(stab_comp.circulating_stab, 0);
    assert_eq!(stab_comp.internal_stab_price, dec(1));
}

#[test]
fn lib_deploys() {
    let stab_comp = publish_and_setup();
    assert_eq!(stab_comp.collaterals.len(), 1);
    assert_eq!(stab_comp.cdps.len(), 0);
}

#[test]
fn can_open_cdp() {
    let mut stab_comp = publish_and_setup();
    let (stab, _cdp) = stab_comp.open_cdp(col_bucket(dec(1000)), dec(500), true).unwrap();
    assert_eq!(stab.amount, dec(500));
}

#[test]
fn cant_open_cdp_insufficient_collateral() {
    let mut stab_comp = publish_and_setup();
    let result = stab_comp.open_cdp(col_bucket(dec(10)), dec(500), true);
    assert!(result.is_err());
}

#[test]
fn can_close_cdp() {
    let mut stab_comp = publish_and_setup();
    let (stab, cdp) = stab_comp.open_cdp(col_bucket(dec(1000)), dec(500), true).unwrap();
    let (collateral, leftover_stab) = stab_comp.close_cdp(cdp, stab).unwrap();
    assert_eq!(collateral.amount, dec(1000));
    assert_eq!(leftover_stab.amount, dec(0));
}

#[test]
fn can_partial_close_cdp() {
    let mut stab_comp = publish_and_setup();
    let (stab, cdp) = stab_comp.open_cdp(col_bucket(dec(1000)), dec(500), true).unwrap();
    let payment = Bucket { resource: stab.resource, amount: dec(100) };
    stab_comp.partial_close_cdp(cdp, payment).unwrap();
    assert_eq!(stab.amount - payment.amount, dec(400));
    assert_eq!(stab_comp.cdp_data(cdp).minted_stab, dec(400));
}

#[test]
fn cant_close_cdp_insufficient_repayment() {
    let mut stab_comp = publish_and_setup();
    let (stab, cdp) = stab_comp.open_cdp(col_bucket(dec(1000)), dec(500), true).unwrap();
    let payment = Bucket { resource: stab.resource, amount: dec(400) };
    let result = stab_comp.close_cdp(cdp, payment);
    assert!(result.is_err());
}

#[test]
fn cant_partial_close_cdp_below_minimum_mint() {
    let mut stab_comp = publish_and_setup();
    let (stab, cdp) = stab_comp.open_cdp(col_bucket(dec(1000)), dec(500), true).unwrap();
    let payment = Bucket { resource: stab.resource, amount: 4995 * SCALE / 10 };
    let result = stab_comp.partial_close_cdp(cdp, payment);
    assert!(result.is_err());
    assert_eq!(result, Err(StabError::MinMintViolated));
}

#[test]
fn cant_close_cdp_wrong_resource() {
    let mut stab_comp = publish_and_setup();
    let (_stab, cdp) = stab_comp.open_cdp(col_bucket(dec(1000)), dec(500), true).unwrap();
    let result = stab_comp.close_cdp(cdp, col_bucket(dec(500)));
    assert!(result.is_err());
}

#[test]
fn cant_partial_close_cdp_wrong_resource() {
    let mut stab_comp = publish_and_setup();
    let (_stab, cdp) = stab_comp.open_cdp(col_bucket(dec(1000)), dec(500), true).unwrap();
    let result = stab_comp.partial_close_cdp(cdp, col_bucket(dec(500)));
    assert!(result.is_err());
}

#[test]
fn can_top_up_cdp() {
    let mut stab_comp = publish_and_setup();
    let mut wallet: i128 = dec(10000);
    wallet -= dec(1000);
    let (_stab, cdp) = stab_comp.open_cdp(col_bucket(dec(1000)), dec(500), true).unwrap();
    stab_comp.top_up_cdp(cdp, col_bucket(dec(500))).unwrap();
    wallet -= dec(500);
    assert_eq!(wallet, dec(8500));
}

#[test]
fn cant_top_up_cdp_wrong_payment() {
    let mut stab_comp = publish_and_setup();
    let (stab, cdp) = stab_comp.open_cdp(col_bucket(dec(1000)), dec(500), true).unwrap();
    let payment = Bucket { resource: stab.resource, amount: dec(500) };
    let result = stab_comp.top_up_cdp(cdp, payment);
    assert!(result.is_err());
}

#[test]
fn can_top_up_cdp_and_remove() {
    let mut stab_comp = publish_and_setup();
    let (stab, cdp) = stab_comp.open_cdp(col_bucket(dec(1000)), dec(500), true).unwrap();
    stab_comp.top_up_cdp(cdp, col_bucket(dec(500))).unwrap();
    let (collateral, leftover_stab) = stab_comp.close_cdp(cdp, stab).unwrap();
    assert_eq!(collateral.amount, dec(1500));
    assert_eq!(leftover_stab.amount, dec(0));
}

#[test]
fn can_remove_collateral() {
    let mut stab_comp = publish_and_setup();
    let (_stab, cdp) = stab_comp.open_cdp(col_bucket(dec(1000)), dec(500), true).unwrap();
    let removed = stab_comp.remove_collateral(cdp, dec(100)).unwrap();
    assert_eq!(removed.amount, dec(100));
    assert_eq!(removed.resource, COL_A);
}

#[test]
fn cant_remove_collateral_below_mcr() {
    let mut stab_comp = publish_and_setup();
    let (_stab, cdp) = stab_comp.open_cdp(col_bucket(dec(1000)), dec(500), true).unwrap();
    let result = stab_comp.remove_collateral(cdp, dec(400));
    assert!(result.is_err());
}

#[test]
fn can_borrow_more() {
    let mut stab_comp = publish_and_setup();
    let (_stab, cdp) = stab_comp.open_cdp(col_bucket(dec(1000)), dec(500), true).unwrap();
    let additional_stab = stab_comp.borrow_more(cdp, dec(100)).unwrap();
    assert_eq!(additional_stab.amount, dec(100));
}

#[test]
fn can_return_internal_price() {
    let stab_comp = publish_and_setup();
    let price = stab_comp.return_internal_price();
    assert_eq!(price, dec(1));
}

#[test]
fn open_rejects_when_openings_stopped() {
    let mut stab_comp = publish_and_setup();
    stab_comp.set_stops(false, true, false, false, false);
    let result = stab_comp.open_cdp(col_bucket(dec(1000)), dec(500), true);
    assert_eq!(result, Err(StabError::OperationStopped));
}

#[test]
fn open_rejects_below_minimum_mint() {
    let mut stab_comp = publish_and_setup();
    let result = stab_comp.open_cdp(col_bucket(dec(1000)), SCALE / 2, true);
    assert_eq!(result, Err(StabError::MinMintViolated));
}

#[test]
fn open_rejects_unknown_collateral() {
    let mut stab_comp = publish_and_setup();
    let bad = Bucket { resource: 77, amount: dec(1000) };
    let result = stab_comp.open_cdp(bad, dec(500), true);
    assert_eq!(result, Err(StabError::UnknownCollateral));
}

#[test]
fn open_unsafe_allows_lower_collateral() {
    let mut stab_comp = publish_and_setup();
    // value 400 >= 500 * 0.75 = 375, but below the 1.5 ratio gate
    assert!(stab_comp.open_cdp(col_bucket(dec(400)), dec(500), true).is_err());
    let mut other = publish_and_setup();
    assert!(other.open_cdp(col_bucket(dec(400)), dec(500), false).is_ok());
}

#[test]
fn add_collateral_rejects_duplicates() {
    let mut stab_comp = publish_and_setup();
    let result = stab_comp.add_collateral(COL_A, 3 * SCALE / 2, dec(1));
    assert_eq!(result, Err(StabError::AlreadyRegistered));
}

#[test]
fn share_cap_blocks_debt_increase() {
    let mut stab_comp = publish_and_setup();
    stab_comp.add_collateral(2, 3 * SCALE / 2, dec(1)).unwrap();
    // cap the second collateral at a tenth of supply
    stab_comp.edit_collateral(2, 3 * SCALE / 2, true, SCALE / 10).unwrap();
    let (_s, _c) = stab_comp.open_cdp(col_bucket(dec(1000)), dec(500), true).unwrap();
    let b2 = Bucket { resource: 2, amount: dec(1000) };
    let result = stab_comp.open_cdp(b2, dec(500), true);
    assert_eq!(result, Err(StabError::ShareExceeded));
}

#[test]
fn pool_unit_collateral_uses_redemption_rate() {
    let mut stab_comp = publish_and_setup();
    // the pool unit wraps the registered collateral, one unit worth two
    stab_comp.add_pool_collateral(50, COL_A, true, true).unwrap();
    stab_comp.set_redemption_rate(50, 2 * SCALE).unwrap();
    let b = Bucket { resource: 50, amount: dec(600) };
    let (stab, cdp) = stab_comp.open_cdp(b, dec(500), true).unwrap();
    assert_eq!(stab.amount, dec(500));
    // underlying 1200 against 500: ratio 2.4
    assert_eq!(stab_comp.cdp_data(cdp).collateral_stab_ratio, 24 * SCALE / 10);
    assert_eq!(stab_comp.pool_units[0].minted_stab, dec(500));
}

#[test]
fn retrieve_leftover_requires_liquidated_state() {
    let mut stab_comp = publish_and_setup();
    let (_stab, cdp) = stab_comp.open_cdp(col_bucket(dec(1000)), dec(500), true).unwrap();
    let result = stab_comp.retrieve_leftover_collateral(cdp);
    assert_eq!(result, Err(StabError::WrongStatus));
}

#[test]
fn burn_loan_receipt_needs_settled_position() {
    let mut stab_comp = publish_and_setup();
    let (stab, cdp) = stab_comp.open_cdp(col_bucket(dec(1000)), dec(500), true).unwrap();
    assert!(stab_comp.burn_loan_receipt(cdp).is_err());
    let (_col, _left) = stab_comp.close_cdp(cdp, stab).unwrap();
    assert!(stab_comp.burn_loan_receipt(cdp).is_ok());
}

#[test]
fn accounting_totals_follow_debt() {
    let mut stab_comp = publish_and_setup();
    let (_s1, _c1) = stab_comp.open_cdp(col_bucket(dec(1000)), dec(500), true).unwrap();
    let (_s2, c2) = stab_comp.open_cdp(col_bucket(dec(900)), dec(300), true).unwrap();
    assert_eq!(stab_comp.circulating_stab, dec(800));
    assert_eq!(stab_comp.collaterals[0].minted_stab, dec(800));
    assert_eq!(stab_comp.collaterals[0].vault, dec(1900));
    let payment = Bucket { resource: STAB, amount: dec(100) };
    stab_comp.partial_close_cdp(c2, payment).unwrap();
    assert_eq!(stab_comp.circulating_stab, dec(700));
    assert_eq!(stab_comp.collaterals[0].vault, dec(1900));
}
