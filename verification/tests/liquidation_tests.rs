use stabilis::engine::Stabilis;
use stabilis::fixed::SCALE;
use stabilis::types::{Bucket, CdpStatus, CdpUpdate, StabError};

const STAB: u64 = 99;
const COL_A: u64 = 1;

fn dec(n: i128) -> i128 {
    n * SCALE
}

fn publish_and_setup() -> Stabilis {
    let mut stab_comp = Stabilis::new(STAB);
    stab_comp
        .add_collateral(COL_A, 3 * SCALE / 2, dec(1))
        .unwrap();
    stab_comp
}

fn col_bucket(amount: i128) -> Bucket {
    Bucket { resource: COL_A, amount }
}

fn stab_bucket(amount: i128) -> Bucket {
    Bucket { resource: STAB, amount }
}

#[test]
fn can_mark_for_liquidation() {
    let mut stab_comp = publish_and_setup();
    let (_stab, _cdp) = stab_comp.open_cdp(col_bucket(dec(1000)), dec(500), true).unwrap();
    stab_comp.change_collateral_price(COL_A, SCALE / 2).unwrap();
    let marker = stab_comp.mark_for_liquidation(COL_A, 0).unwrap();
    assert!(marker > 0);
}

#[test]
fn can_liquidate_with_marker() {
    let mut stab_comp = publish_and_setup();
    let (_stab, _cdp) = stab_comp.open_cdp(col_bucket(dec(1000)), dec(500), true).unwrap();
    stab_comp.change_collateral_price(COL_A, SCALE / 2).unwrap();
    let marker_id = stab_comp.mark_for_liquidation(COL_A, 0).unwrap();
    let (collateral_reward, leftover_stab, _receipt) = stab_comp
        .liquidate_position_with_marker(marker_id, stab_bucket(dec(600)), 600)
        .unwrap();
    assert_eq!(collateral_reward.amount, dec(1000));
    if let Some(stab) = leftover_stab {
        assert_eq!(stab.amount, dec(100));
    }
}

#[test]
fn can_liquidate_without_marker_by_id() {
    let mut stab_comp = publish_and_setup();
    let (_stab, cdp_id) = stab_comp.open_cdp(col_bucket(dec(1000)), dec(500), true).unwrap();
    stab_comp.change_collateral_price(COL_A, SCALE / 2).unwrap();
    let _marker = stab_comp.mark_for_liquidation(COL_A, 0).unwrap();
    let (collateral_reward, leftover_stab, _receipt) = stab_comp
        .liquidate_position_without_marker(stab_bucket(dec(600)), false, 0, cdp_id, 600)
        .unwrap();
    assert_eq!(collateral_reward.amount, dec(1000));
    if let Some(stab) = leftover_stab {
        assert_eq!(stab.amount, dec(100));
    }
}

#[test]
fn can_liquidate_without_marker_automatic() {
    let mut stab_comp = publish_and_setup();
    let (_stab, cdp_id) = stab_comp.open_cdp(col_bucket(dec(1000)), dec(500), true).unwrap();
    stab_comp.change_collateral_price(COL_A, SCALE / 2).unwrap();
    let _marker = stab_comp.mark_for_liquidation(COL_A, 0).unwrap();
    let _ = cdp_id;
    let (collateral_reward, leftover_stab, _receipt) = stab_comp
        .liquidate_position_without_marker(stab_bucket(dec(600)), true, 0, 0, 600)
        .unwrap();
    assert_eq!(collateral_reward.amount, dec(1000));
    if let Some(stab) = leftover_stab {
        assert_eq!(stab.amount, dec(100));
    }
}

#[test]
fn correct_liquidation_fines_over_115_cr() {
    let mut stab_comp = publish_and_setup();
    let (_stab, cdp_id) = stab_comp.open_cdp(col_bucket(dec(1000)), dec(400), true).unwrap();
    stab_comp.change_internal_price(dec(2));
    stab_comp.change_collateral_price(COL_A, dec(1)).unwrap();
    let _marker = stab_comp.mark_for_liquidation(COL_A, 0).unwrap();
    let (collateral_reward, _leftover, _receipt) = stab_comp
        .liquidate_position_without_marker(stab_bucket(dec(500)), true, 0, 0, 600)
        .unwrap();
    let retrieved_collateral = stab_comp.retrieve_leftover_collateral(cdp_id).unwrap();
    assert!(retrieved_collateral.amount == dec(80));
    assert!(retrieved_collateral.resource == COL_A);
    assert!(collateral_reward.amount == dec(880));
    assert!(collateral_reward.resource == COL_A);
    let protocol_collateral = stab_comp.empty_collateral_treasury(dec(40), COL_A, false).unwrap();
    assert!(protocol_collateral.amount == dec(40));
    assert!(protocol_collateral.resource == COL_A);
    let impossible_retrieval = stab_comp.empty_collateral_treasury(SCALE / 10, COL_A, false);
    assert!(impossible_retrieval.is_err());
}

#[test]
fn correct_liquidation_fines_between_110_115_cr() {
    let mut stab_comp = publish_and_setup();
    let (_stab, _cdp_id) = stab_comp.open_cdp(col_bucket(dec(4500)), dec(2000), true).unwrap();
    stab_comp.change_internal_price(dec(2));
    stab_comp.change_collateral_price(COL_A, dec(1)).unwrap();
    let _marker = stab_comp.mark_for_liquidation(COL_A, 0).unwrap();
    let (collateral_reward, _leftover, _receipt) = stab_comp
        .liquidate_position_without_marker(stab_bucket(dec(2000)), true, 0, 0, 600)
        .unwrap();
    assert!(collateral_reward.amount == dec(4400));
    assert!(collateral_reward.resource == COL_A);
    let protocol_collateral = stab_comp.empty_collateral_treasury(dec(100), COL_A, false).unwrap();
    assert!(protocol_collateral.amount == dec(100));
    assert!(protocol_collateral.resource == COL_A);
    let impossible_retrieval = stab_comp.empty_collateral_treasury(SCALE / 10, COL_A, false);
    assert!(impossible_retrieval.is_err());
}

#[test]
fn correct_liquidation_fines_below_110_cr() {
    let mut stab_comp = publish_and_setup();
    let (_stab, cdp_id) = stab_comp.open_cdp(col_bucket(dec(2100)), dec(1000), true).unwrap();
    stab_comp.change_internal_price(dec(2));
    stab_comp.change_collateral_price(COL_A, dec(1)).unwrap();
    let _marker = stab_comp.mark_for_liquidation(COL_A, 0).unwrap();
    let (collateral_reward, _leftover, receipt) = stab_comp
        .liquidate_position_without_marker(stab_bucket(dec(1000)), true, 0, 0, 600)
        .unwrap();
    assert!(collateral_reward.amount == dec(2100));
    // the premium received is capped at the collateral fraction: 1.05
    assert_eq!(
        stab_comp.receipts[(receipt - 1) as usize].percentage_received,
        105 * SCALE / 100
    );
    assert_eq!(stab_comp.cdp_data(cdp_id).status, CdpStatus::Liquidated);
    assert_eq!(stab_comp.cdp_data(cdp_id).minted_stab, 0);
}

#[test]
fn liquidation_respects_the_delay() {
    let mut stab_comp = publish_and_setup();
    let (_stab, _cdp) = stab_comp.open_cdp(col_bucket(dec(1000)), dec(500), true).unwrap();
    stab_comp.change_collateral_price(COL_A, SCALE / 2).unwrap();
    let marker_id = stab_comp.mark_for_liquidation(COL_A, 0).unwrap();
    // 5 minutes have not passed yet
    let early = stab_comp.liquidate_position_with_marker(marker_id, stab_bucket(dec(600)), 299);
    assert_eq!(early, Err(StabError::NotYetLiquidatable));
}

#[test]
fn saving_by_top_up_consumes_the_marker() {
    let mut stab_comp = publish_and_setup();
    let (_stab, cdp_id) = stab_comp.open_cdp(col_bucket(dec(1000)), dec(500), true).unwrap();
    stab_comp.change_collateral_price(COL_A, SCALE / 2).unwrap();
    let marker_id = stab_comp.mark_for_liquidation(COL_A, 0).unwrap();
    assert_eq!(stab_comp.cdp_data(cdp_id).status, CdpStatus::Marked);
    stab_comp.top_up_cdp(cdp_id, col_bucket(dec(2000))).unwrap();
    assert_eq!(stab_comp.cdp_data(cdp_id).status, CdpStatus::Healthy);
    assert!(stab_comp.marker_data(marker_id).used);
    assert_eq!(stab_comp.marked_cdps_active, 0);
}

#[test]
fn liquidation_saves_a_recovered_position() {
    let mut stab_comp = publish_and_setup();
    let (_stab, cdp_id) = stab_comp.open_cdp(col_bucket(dec(1000)), dec(500), true).unwrap();
    stab_comp.change_collateral_price(COL_A, SCALE / 2).unwrap();
    let marker_id = stab_comp.mark_for_liquidation(COL_A, 0).unwrap();
    // the price recovers before anyone liquidates
    stab_comp.change_collateral_price(COL_A, dec(1)).unwrap();
    let (payment_back, none_reward, save_marker) = stab_comp
        .liquidate_position_with_marker(marker_id, stab_bucket(dec(600)), 600)
        .unwrap();
    assert_eq!(payment_back.amount, dec(600));
    assert!(none_reward.is_none());
    assert_eq!(stab_comp.marker_data(save_marker).mark_type, CdpUpdate::Saved);
    assert_eq!(stab_comp.cdp_data(cdp_id).status, CdpStatus::Healthy);
}

#[test]
fn force_liquidate_requires_entire_loan_below_full_backing() {
    let mut stab_comp = publish_and_setup();
    let (_stab, _cdp) = stab_comp.open_cdp(col_bucket(dec(2100)), dec(1000), true).unwrap();
    stab_comp.change_internal_price(dec(2));
    stab_comp.change_collateral_price(COL_A, dec(1)).unwrap();
    // collateral now worth 1.05 of the debt... push it below full backing
    stab_comp.change_internal_price(dec(3));
    stab_comp.change_collateral_price(COL_A, dec(1)).unwrap();
    // partial payment must be refused outright
    let result = stab_comp.force_liquidate(COL_A, stab_bucket(dec(500)), 95 * SCALE / 100, false);
    assert_eq!(result, Err(StabError::EntireLoanRequired));
    // the whole loan goes through
    let (taken, leftover) = stab_comp
        .force_liquidate(COL_A, stab_bucket(dec(1000)), 95 * SCALE / 100, false)
        .unwrap();
    assert!(taken.amount >= 0);
    assert_eq!(leftover.amount, dec(0));
}

#[test]
fn force_liquidate_partial_keeps_the_position() {
    let mut stab_comp = publish_and_setup();
    let (_stab, cdp_id) = stab_comp.open_cdp(col_bucket(dec(2100)), dec(1000), true).unwrap();
    stab_comp.change_internal_price(dec(2));
    stab_comp.change_collateral_price(COL_A, dec(1)).unwrap();
    // cr_pct is 1.05 > 1, so partial consumption is allowed
    let (taken, leftover) = stab_comp
        .force_liquidate(COL_A, stab_bucket(dec(100)), 95 * SCALE / 100, false)
        .unwrap();
    assert!(taken.amount > 0);
    assert_eq!(leftover.amount, 0);
    assert_eq!(stab_comp.cdp_data(cdp_id).status, CdpStatus::Healthy);
    assert_eq!(stab_comp.cdp_data(cdp_id).minted_stab, dec(900));
}

#[test]
fn marker_cannot_be_used_twice() {
    let mut stab_comp = publish_and_setup();
    let (_stab, _cdp) = stab_comp.open_cdp(col_bucket(dec(1000)), dec(500), true).unwrap();
    stab_comp.change_collateral_price(COL_A, SCALE / 2).unwrap();
    let marker_id = stab_comp.mark_for_liquidation(COL_A, 0).unwrap();
    let _ = stab_comp
        .liquidate_position_with_marker(marker_id, stab_bucket(dec(600)), 600)
        .unwrap();
    let again = stab_comp.liquidate_position_with_marker(marker_id, stab_bucket(dec(600)), 600);
    assert_eq!(again, Err(StabError::MarkerUsed));
}

#[test]
fn mark_needs_an_unhealthy_position() {
    let mut stab_comp = publish_and_setup();
    let (_stab, _cdp) = stab_comp.open_cdp(col_bucket(dec(1000)), dec(500), true).unwrap();
    let result = stab_comp.mark_for_liquidation(COL_A, 0);
    assert_eq!(result, Err(StabError::NoMarkable));
}

#[test]
fn force_mint_sells_collateral_into_best_position() {
    let mut stab_comp = publish_and_setup();
    let (_stab, cdp_id) = stab_comp.open_cdp(col_bucket(dec(1000)), dec(100), true).unwrap();
    // percentage to supply 1.05, plenty of headroom: ratio 10 vs floor 4.5
    let (minted, _excess) = stab_comp
        .force_mint(COL_A, col_bucket(dec(10)), 105 * SCALE / 100)
        .unwrap();
    assert_eq!(minted.resource, STAB);
    assert!(minted.amount > 0);
    assert!(stab_comp.cdp_data(cdp_id).minted_stab > dec(100));
    assert_eq!(
        stab_comp.circulating_stab,
        dec(100) + minted.amount
    );
}

#[test]
fn force_mint_returns_the_excess() {
    let mut stab_comp = publish_and_setup();
    let (_stab, _cdp_id) = stab_comp.open_cdp(col_bucket(dec(450)), dec(100), true).unwrap();
    // the position sits exactly at the force-mint floor: nothing fits
    let result = stab_comp.force_mint(COL_A, col_bucket(dec(1000)), SCALE);
    assert!(result.is_err());
}

#[test]
fn force_mint_respects_the_share_cap() {
    let mut stab_comp = publish_and_setup();
    stab_comp.add_collateral(2, 3 * SCALE / 2, dec(1)).unwrap();
    let (_s1, _c1) = stab_comp.open_cdp(col_bucket(dec(1000)), dec(100), true).unwrap();
    let b2 = Bucket { resource: 2, amount: dec(1000) };
    let (_s2, _c2) = stab_comp.open_cdp(b2, dec(100), true).unwrap();
    // each collateral backs half the supply; cap the first at exactly that
    stab_comp.edit_collateral(COL_A, 3 * SCALE / 2, true, SCALE / 2).unwrap();
    let result = stab_comp.force_mint(COL_A, col_bucket(dec(10)), 105 * SCALE / 100);
    assert_eq!(result, Err(StabError::ShareExceeded));
}
