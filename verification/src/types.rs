//! Plain data model of the engine: positions, markers, receipts,
//! per-collateral records, protocol parameters, asset buckets and the
//! error taxonomy.
//!
//! Resources (token kinds) are identified by `u64` ids; every decimal
//! quantity is an 18-decimal fixed-point `i128` (see `fixed`).

use vstd::prelude::*;
use crate::index::CrIndex;

verus! {

/// A quantity of one resource, handed in and out of engine operations.
#[derive(Clone, Copy, PartialEq, Eq, Structural, Debug)]
pub struct Bucket {
    pub resource: u64,
    pub amount: i128,
}

#[derive(Clone, Copy, PartialEq, Eq, Structural, Debug)]
pub enum CdpStatus {
    Healthy,
    Marked,
    Liquidated,
    ForceLiquidated,
    Closed,
}

#[derive(Clone, Copy, PartialEq, Eq, Structural, Debug)]
pub enum CdpUpdate {
    Marked,
    Saved,
}

/// A collateralized debt position; the receipt with this id is the
/// capability to operate on it.
#[derive(Clone, Copy, PartialEq, Eq, Structural, Debug)]
pub struct Cdp {
    pub collateral: u64,
    pub parent_address: u64,
    pub is_pool_unit_collateral: bool,
    pub collateral_amount: i128,
    pub minted_stab: i128,
    pub collateral_stab_ratio: i128,
    pub status: CdpStatus,
    pub marker_id: u64,
}

/// Lifecycle record minted when a position is marked or saved.
#[derive(Clone, Copy, PartialEq, Eq, Structural, Debug)]
pub struct CdpMarker {
    pub mark_type: CdpUpdate,
    pub time_marked: i64,
    pub marked_id: u64,
    pub marker_placing: i128,
    pub used: bool,
}

/// Audit record issued by a completed liquidation.
#[derive(Clone, Copy, PartialEq, Eq, Structural, Debug)]
pub struct LiquidationReceipt {
    pub collateral: u64,
    pub stab_paid: i128,
    pub percentage_owed: i128,
    pub percentage_received: i128,
    pub cdp_liquidated: u64,
    pub date_liquidated: i64,
}

/// Per-collateral configuration, accounting totals, custody balances and
/// the index of positions sorted by collateral ratio.
pub struct CollateralInfo {
    pub mcr: i128,
    pub usd_price: i128,
    pub liquidation_collateral_ratio: i128,
    pub vault: i128,
    pub resource_address: u64,
    pub treasury: i128,
    pub accepted: bool,
    pub initialized: bool,
    pub max_stab_share: i128,
    pub minted_stab: i128,
    pub collateral_amount: i128,
    pub highest_cr: i128,
    pub ratios: CrIndex,
}

/// A wrapped collateral resource (e.g. a liquid-staking unit); its value
/// in parent units follows the snapshotted redemption rate.
#[derive(Clone, Copy, PartialEq, Eq, Structural, Debug)]
pub struct PoolUnitInfo {
    pub vault: i128,
    pub treasury: i128,
    pub lsu: bool,
    pub redemption_rate: i128,
    pub parent_address: u64,
    pub address: u64,
    pub accepted: bool,
    pub minted_stab: i128,
    pub max_pool_share: i128,
}

#[derive(Clone, Copy, PartialEq, Eq, Structural, Debug)]
pub struct ProtocolParameters {
    pub minimum_mint: i128,
    pub max_vector_length: u64,
    pub liquidation_delay: i64,
    pub unmarked_delay: i64,
    pub liquidation_liquidation_fine: i128,
    pub stabilis_liquidation_fine: i128,
    pub stop_liquidations: bool,
    pub stop_openings: bool,
    pub stop_closings: bool,
    pub stop_force_mint: bool,
    pub stop_force_liquidate: bool,
    pub force_mint_cr_multiplier: i128,
}

/// Why an operation was refused; refused operations change nothing.
#[derive(Clone, Copy, PartialEq, Eq, Structural, Debug)]
pub enum StabError {
    UnknownCollateral,
    AlreadyRegistered,
    NotAccepted,
    WrongResource,
    InsufficientPayment,
    InsufficientCollateral,
    WouldFallBelowMcr,
    InsufficientSave,
    InsufficientTreasury,
    NoMarkable,
    NotYetLiquidatable,
    NotMarked,
    MarkerUsed,
    ShareExceeded,
    MinMintViolated,
    CrBucketFull,
    OperationStopped,
    EntireLoanRequired,
    NoSuitableTarget,
    WrongStatus,
    Overflow,
}

} // verus!
