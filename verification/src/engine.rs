//! The CDP engine: opening, mutating and closing collateralized debt
//! positions, and the mark / save / liquidate state machine.
//!
//! The engine is a pure state machine over plain values: callers hand in
//! buckets and ids and receive buckets, ids and errors back. Every
//! operation either returns its promised outputs or an error, and a
//! refused operation leaves the state untouched. `wf` states the global
//! accounting invariants; every operation preserves it.

use vstd::prelude::*;
use crate::fixed::{SCALE, mul_fp, div_fp, fits_fp, dec_mul, dec_div, add_fp, sub_fp, lemma_mul_fp_nonneg, lemma_div_fp_nonneg};
use crate::index::{CrIndex, MarkedIndex};
use crate::types::{
    Bucket,
    Cdp,
    CdpMarker,
    CdpStatus,
    CdpUpdate,
    CollateralInfo,
    LiquidationReceipt,
    PoolUnitInfo,
    ProtocolParameters,
    StabError,
};

verus! {

/// A position still counts toward the totals of its collateral.
pub open spec fn is_live(c: Cdp) -> bool {
    c.status == CdpStatus::Healthy || c.status == CdpStatus::Marked
}

/// Sum of a weight over a sequence.
pub open spec fn sum_map<T>(s: Seq<T>, f: spec_fn(T) -> int) -> int
    decreases s.len(),
{
    if s.len() == 0 {
        0
    } else {
        sum_map(s.drop_last(), f) + f(s.last())
    }
}

pub proof fn lemma_sum_map_update<T>(s: Seq<T>, i: int, v: T, f: spec_fn(T) -> int)
    requires
        0 <= i < s.len(),
    ensures
        sum_map(s.update(i, v), f) == sum_map(s, f) - f(s[i]) + f(v),
    decreases s.len(),
{
    let t = s.update(i, v);
    if i == s.len() - 1 {
        assert(t.drop_last() =~= s.drop_last());
        assert(t.last() == v);
    } else {
        assert(t.drop_last() =~= s.drop_last().update(i, v));
        assert(t.last() == s.last());
        lemma_sum_map_update(s.drop_last(), i, v, f);
    }
}

pub proof fn lemma_sum_map_push<T>(s: Seq<T>, v: T, f: spec_fn(T) -> int)
    ensures
        sum_map(s.push(v), f) == sum_map(s, f) + f(v),
{
    assert(s.push(v).drop_last() =~= s);
    assert(s.push(v).last() == v);
}

pub proof fn lemma_sum_map_nonneg<T>(s: Seq<T>, f: spec_fn(T) -> int)
    requires
        forall|i: int| 0 <= i < s.len() ==> f(s[i]) >= 0,
    ensures
        sum_map(s, f) >= 0,
    decreases s.len(),
{
    if s.len() > 0 {
        lemma_sum_map_nonneg(s.drop_last(), f);
        assert(f(s.last()) >= 0);
    }
}

/// Debt a position contributes to its parent collateral's total.
pub open spec fn debt_w(parent: u64) -> spec_fn(Cdp) -> int {
    |c: Cdp|
        if is_live(c) && c.parent_address == parent {
            c.minted_stab as int
        } else {
            0
        }
}

/// Debt a position contributes to a pool-unit collateral's total.
pub open spec fn pu_debt_w(res: u64) -> spec_fn(Cdp) -> int {
    |c: Cdp|
        if is_live(c) && c.is_pool_unit_collateral && c.collateral == res {
            c.minted_stab as int
        } else {
            0
        }
}

/// Wrapped units a position keeps in a plain collateral's vault.
pub open spec fn vault_w(res: u64) -> spec_fn(Cdp) -> int {
    |c: Cdp|
        if !c.is_pool_unit_collateral && c.collateral == res {
            c.collateral_amount as int
        } else {
            0
        }
}

/// Wrapped units a position keeps in a pool-unit collateral's vault.
pub open spec fn pu_vault_w(res: u64) -> spec_fn(Cdp) -> int {
    |c: Cdp|
        if c.is_pool_unit_collateral && c.collateral == res {
            c.collateral_amount as int
        } else {
            0
        }
}

pub open spec fn col_minted_w() -> spec_fn(CollateralInfo) -> int {
    |c: CollateralInfo| c.minted_stab as int
}

/// The stablecoin engine.
pub struct Stabilis {
    pub collaterals: Vec<CollateralInfo>,
    pub pool_units: Vec<PoolUnitInfo>,
    /// Positions; the id of `cdps[i]` is `i + 1`.
    pub cdps: Vec<Cdp>,
    /// Markers; the id of `markers[i]` is `i + 1`.
    pub markers: Vec<CdpMarker>,
    /// Liquidation receipts; the id of `receipts[i]` is `i + 1`.
    pub receipts: Vec<LiquidationReceipt>,
    pub marked_cdps: MarkedIndex,
    pub marked_cdps_active: u64,
    pub marker_placing_counter: i128,
    pub internal_stab_price: i128,
    pub circulating_stab: i128,
    /// Resource id of the stablecoin itself.
    pub stab_resource: u64,
    pub parameters: ProtocolParameters,
}

impl Stabilis {
    pub open spec fn has_cdp(self, id: u64) -> bool {
        1 <= id && id as int <= self.cdps@.len()
    }

    pub open spec fn cdp_of(self, id: u64) -> Cdp {
        self.cdps@[id as int - 1]
    }

    pub open spec fn has_col(self, res: u64) -> bool {
        exists|i: int|
            0 <= i < self.collaterals@.len() && self.collaterals@[i].resource_address == res
    }

    pub open spec fn col_ix(self, res: u64) -> int {
        choose|i: int|
            0 <= i < self.collaterals@.len() && self.collaterals@[i].resource_address == res
    }

    pub open spec fn col(self, res: u64) -> CollateralInfo {
        self.collaterals@[self.col_ix(res)]
    }

    pub open spec fn has_pu(self, res: u64) -> bool {
        exists|i: int| 0 <= i < self.pool_units@.len() && self.pool_units@[i].address == res
    }

    pub open spec fn pu_ix(self, res: u64) -> int {
        choose|i: int| 0 <= i < self.pool_units@.len() && self.pool_units@[i].address == res
    }

    pub open spec fn pu(self, res: u64) -> PoolUnitInfo {
        self.pool_units@[self.pu_ix(res)]
    }

    pub open spec fn has_marker(self, id: u64) -> bool {
        1 <= id && id as int <= self.markers@.len()
    }

    pub open spec fn marker_of(self, id: u64) -> CdpMarker {
        self.markers@[id as int - 1]
    }

    /// Wrapped amount translated to parent units at the snapshotted
    /// redemption rate; the identity for plain collateral.
    pub open spec fn spec_underlying(self, amount: int, res: u64, pool: bool) -> int {
        if pool {
            mul_fp(amount, self.pu(res).redemption_rate as int)
        } else {
            amount
        }
    }

    /// Every position, whatever its status, names a registered
    /// collateral; registries only ever grow.
    pub open spec fn cdp_linked(self, i: int) -> bool {
        let c = self.cdps@[i];
        if c.is_pool_unit_collateral {
            &&& self.has_pu(c.collateral)
            &&& self.pu(c.collateral).parent_address == c.parent_address
            &&& self.has_col(c.parent_address)
        } else {
            &&& c.collateral == c.parent_address
            &&& self.has_col(c.parent_address)
        }
    }

    /// Registries are keyed stores: one record per resource, indexes in
    /// range, counters tied to the collections they number.
    pub open spec fn wf_base(self) -> bool {
        &&& forall|i: int, j: int|
            0 <= i < j < self.collaterals@.len() ==> self.collaterals@[i].resource_address
                != self.collaterals@[j].resource_address
        &&& forall|i: int, j: int|
            0 <= i < j < self.pool_units@.len() ==> self.pool_units@[i].address
                != self.pool_units@[j].address
        &&& forall|i: int| 0 <= i < self.collaterals@.len() ==> self.collaterals@[i].ratios.wf()
        &&& self.marked_cdps.wf()
        &&& self.cdps@.len() < u64::MAX
        &&& self.markers@.len() < u64::MAX
        &&& self.receipts@.len() < u64::MAX
        &&& self.marker_placing_counter == self.markers@.len() * (SCALE as int)
        &&& self.marked_cdps_active == self.marked_cdps.entries@.len()
        &&& self.parameters.liquidation_liquidation_fine >= 0
        &&& self.parameters.stabilis_liquidation_fine >= 0
        &&& self.parameters.minimum_mint >= 0
        &&& forall|i: int|
            0 <= i < self.cdps@.len() ==> (#[trigger] self.cdps@[i]).collateral_amount >= 0
                && self.cdps@[i].minted_stab >= 0 && self.cdps@[i].collateral_stab_ratio >= 0
        &&& forall|i: int| 0 <= i < self.cdps@.len() ==> #[trigger] self.cdp_linked(i)
        &&& forall|i: int|
            0 <= i < self.collaterals@.len() ==> (#[trigger] self.collaterals@[i]).minted_stab
                >= 0 && self.collaterals@[i].vault >= 0 && self.collaterals@[i].treasury >= 0
        &&& forall|i: int|
            0 <= i < self.pool_units@.len() ==> (#[trigger] self.pool_units@[i]).minted_stab >= 0
                && self.pool_units@[i].vault >= 0 && self.pool_units@[i].treasury >= 0
                && self.pool_units@[i].redemption_rate >= 0
    }

    /// A position stands in its parent's ratio index exactly when it is
    /// healthy, at its stored ratio, once.
    pub open spec fn wf_index(self) -> bool {
        &&& forall|ci: int, cr: i128, id: u64|
            0 <= ci < self.collaterals@.len() && (#[trigger] self.collaterals@[ci].ratios.contains_id(cr, id))
                ==> self.has_cdp(id) && self.cdp_of(id).status == CdpStatus::Healthy
                && self.cdp_of(id).parent_address == self.collaterals@[ci].resource_address
                && self.cdp_of(id).collateral_stab_ratio == cr
        &&& forall|i: int|
            0 <= i < self.cdps@.len() && (#[trigger] self.cdps@[i]).status == CdpStatus::Healthy
                ==> self.has_col(self.cdps@[i].parent_address) && self.col(
                self.cdps@[i].parent_address,
            ).ratios.contains_id(self.cdps@[i].collateral_stab_ratio, (i + 1) as u64)
    }

    /// A marked position points at its unused marker and stands in the
    /// marked index under that marker's placing.
    pub open spec fn marked_cdp_ok(self, i: int) -> bool {
        self.cdps@[i].status == CdpStatus::Marked ==> {
            let mid = self.cdps@[i].marker_id;
            &&& self.has_marker(mid)
            &&& self.marker_of(mid).mark_type == CdpUpdate::Marked
            &&& !self.marker_of(mid).used
            &&& self.marker_of(mid).marked_id == i + 1
            &&& self.marked_cdps.contains_placing(self.marker_of(mid).marker_placing)
            &&& self.marked_cdps.id_at(self.marker_of(mid).marker_placing) == i + 1
        }
    }

    /// An unused marker of the marking kind points back at a position
    /// that is marked by it.
    pub open spec fn marker_ok(self, m: int) -> bool {
        (self.markers@[m].mark_type == CdpUpdate::Marked && !self.markers@[m].used) ==> {
            let id = self.markers@[m].marked_id;
            &&& self.has_cdp(id)
            &&& self.cdp_of(id).status == CdpStatus::Marked
            &&& self.cdp_of(id).marker_id == m + 1
        }
    }

    /// An entry of the marked index names a marked position whose
    /// marker carries this placing.
    pub open spec fn placing_ok(self, p: i128) -> bool {
        let id = self.marked_cdps.id_at(p);
        &&& self.has_cdp(id)
        &&& self.cdp_of(id).status == CdpStatus::Marked
        &&& self.marker_of(self.cdp_of(id).marker_id).marker_placing == p
    }

    /// A marked position, its unused marker and the marked index agree;
    /// placings grow with marker ids and never exceed the counter.
    pub open spec fn wf_marks(self) -> bool {
        &&& forall|i: int| 0 <= i < self.cdps@.len() ==> #[trigger] self.marked_cdp_ok(i)
        &&& forall|m: int| 0 <= m < self.markers@.len() ==> #[trigger] self.marker_ok(m)
        &&& forall|p: i128| self.marked_cdps.contains_placing(p) ==> #[trigger] self.placing_ok(p)
        &&& forall|i: int, j: int|
            0 <= i < j < self.markers@.len() ==> self.markers@[i].marker_placing
                < self.markers@[j].marker_placing
        &&& forall|i: int|
            0 <= i < self.markers@.len() ==> 0 < (#[trigger] self.markers@[i]).marker_placing
                <= self.marker_placing_counter
    }

    /// The accounting sums: per-collateral and per-pool-unit debt, the
    /// circulating supply, and the vault balances.
    pub open spec fn wf_sums(self) -> bool {
        &&& forall|i: int|
            0 <= i < self.collaterals@.len() ==> (#[trigger] self.collaterals@[i]).minted_stab
                as int == sum_map(self.cdps@, debt_w(self.collaterals@[i].resource_address))
        &&& forall|i: int|
            0 <= i < self.pool_units@.len() ==> (#[trigger] self.pool_units@[i]).minted_stab
                as int == sum_map(self.cdps@, pu_debt_w(self.pool_units@[i].address))
        &&& forall|i: int|
            0 <= i < self.collaterals@.len() ==> (#[trigger] self.collaterals@[i]).vault as int
                == sum_map(self.cdps@, vault_w(self.collaterals@[i].resource_address))
        &&& forall|i: int|
            0 <= i < self.pool_units@.len() ==> (#[trigger] self.pool_units@[i]).vault as int
                == sum_map(self.cdps@, pu_vault_w(self.pool_units@[i].address))
        &&& self.circulating_stab as int == sum_map(self.collaterals@, col_minted_w())
    }

    pub open spec fn wf(self) -> bool {
        &&& self.wf_base()
        &&& self.wf_index()
        &&& self.wf_marks()
        &&& self.wf_sums()
    }

    /// A fresh engine: no collateral registered, no position, the
    /// internal price at one, the default protocol parameters.
    pub fn new(stab_resource: u64) -> (r: Stabilis)
        ensures
            r.wf(),
            r.collaterals@.len() == 0,
            r.pool_units@.len() == 0,
            r.cdps@.len() == 0,
            r.markers@.len() == 0,
            r.receipts@.len() == 0,
            r.circulating_stab == 0,
            r.internal_stab_price == SCALE,
            r.stab_resource == stab_resource,
            r.parameters.minimum_mint == SCALE,
            r.parameters.max_vector_length == 250,
            r.parameters.liquidation_delay == 5,
            r.parameters.unmarked_delay == 5,
            r.parameters.liquidation_liquidation_fine as int == SCALE as int / 10,
            r.parameters.stabilis_liquidation_fine as int == SCALE as int / 20,
            !r.parameters.stop_liquidations && !r.parameters.stop_openings
                && !r.parameters.stop_closings && !r.parameters.stop_force_mint
                && !r.parameters.stop_force_liquidate,
            r.parameters.force_mint_cr_multiplier == 3 * SCALE,
    {
        let parameters = ProtocolParameters {
            minimum_mint: SCALE,
            max_vector_length: 250,
            liquidation_delay: 5,
            unmarked_delay: 5,
            liquidation_liquidation_fine: SCALE / 10,
            stabilis_liquidation_fine: SCALE / 20,
            stop_liquidations: false,
            stop_openings: false,
            stop_closings: false,
            stop_force_mint: false,
            stop_force_liquidate: false,
            force_mint_cr_multiplier: 3 * SCALE,
        };
        let r = Stabilis {
            collaterals: Vec::new(),
            pool_units: Vec::new(),
            cdps: Vec::new(),
            markers: Vec::new(),
            receipts: Vec::new(),
            marked_cdps: MarkedIndex::new(),
            marked_cdps_active: 0,
            marker_placing_counter: 0,
            internal_stab_price: SCALE,
            circulating_stab: 0,
            stab_resource,
            parameters,
        };
        r
    }

    /// Index of the record for a plain collateral resource.
    fn find_col(&self, res: u64) -> (r: Option<usize>)
        ensures
            r matches Some(i) ==> i < self.collaterals@.len()
                && self.collaterals@[i as int].resource_address == res,
            r is Some <==> self.has_col(res),
    {
        let mut i: usize = 0;
        while i < self.collaterals.len()
            invariant
                i <= self.collaterals@.len(),
                forall|j: int| 0 <= j < i ==> self.collaterals@[j].resource_address != res,
            decreases self.collaterals@.len() - i,
        {
            if self.collaterals[i].resource_address == res {
                return Some(i);
            }
            i = i + 1;
        }
        proof {
            if self.has_col(res) {
                let w = self.col_ix(res);
                assert(self.collaterals@[w].resource_address == res);
            }
        }
        None
    }

    /// Index of the record for a pool-unit resource.
    fn find_pu(&self, res: u64) -> (r: Option<usize>)
        ensures
            r matches Some(i) ==> i < self.pool_units@.len() && self.pool_units@[i as int].address
                == res,
            r is Some <==> self.has_pu(res),
    {
        let mut i: usize = 0;
        while i < self.pool_units.len()
            invariant
                i <= self.pool_units@.len(),
                forall|j: int| 0 <= j < i ==> self.pool_units@[j].address != res,
            decreases self.pool_units@.len() - i,
        {
            if self.pool_units[i].address == res {
                return Some(i);
            }
            i = i + 1;
        }
        proof {
            if self.has_pu(res) {
                let w = self.pu_ix(res);
                assert(self.pool_units@[w].address == res);
            }
        }
        None
    }

    /// When the registries hold a record for a resource, `col_ix` /
    /// `pu_ix` point at it and at nothing else.
    pub proof fn lemma_col_at(self, i: int)
        requires
            self.wf_base(),
            0 <= i < self.collaterals@.len(),
        ensures
            self.has_col(self.collaterals@[i].resource_address),
            self.col_ix(self.collaterals@[i].resource_address) == i,
            self.col(self.collaterals@[i].resource_address) == self.collaterals@[i],
    {
        let res = self.collaterals@[i].resource_address;
        assert(self.has_col(res));
        let j = self.col_ix(res);
        if i < j {
            assert(self.collaterals@[i].resource_address != self.collaterals@[j].resource_address);
        } else if j < i {
            assert(self.collaterals@[j].resource_address != self.collaterals@[i].resource_address);
        }
    }

    pub proof fn lemma_pu_at(self, i: int)
        requires
            self.wf_base(),
            0 <= i < self.pool_units@.len(),
        ensures
            self.has_pu(self.pool_units@[i].address),
            self.pu_ix(self.pool_units@[i].address) == i,
            self.pu(self.pool_units@[i].address) == self.pool_units@[i],
    {
        let res = self.pool_units@[i].address;
        assert(self.has_pu(res));
        let j = self.pu_ix(res);
        if i < j {
            assert(self.pool_units@[i].address != self.pool_units@[j].address);
        } else if j < i {
            assert(self.pool_units@[j].address != self.pool_units@[i].address);
        }
    }

    /// The error `open_cdp` reports, the first failed check in the
    /// order the operation makes them.
    #[verifier::opaque]
    pub open spec fn spec_open_err(self, b: Bucket, mint: i128, safe: bool) -> StabError {
        let pool = self.is_pool(b.resource);
        let parent = self.parent_of(b.resource);
        let und = self.spec_underlying(b.amount as int, b.resource, pool);
        let value = mul_fp(self.col(parent).usd_price as int, und);
        let debt_value = mul_fp(self.internal_stab_price as int, mint as int);
        let gate = mul_fp(debt_value, self.open_gate(parent, safe));
        let cr = div_fp(und, mint as int);
        let new_col_minted = self.col(parent).minted_stab as int + mint;
        let new_circ = self.circulating_stab as int + mint;
        if mint < self.parameters.minimum_mint {
            StabError::MinMintViolated
        } else if self.parameters.stop_openings {
            StabError::OperationStopped
        } else if pool && !self.pu(b.resource).accepted {
            StabError::NotAccepted
        } else if !pool && !self.has_col(b.resource) {
            StabError::UnknownCollateral
        } else if !pool && !self.col(b.resource).accepted {
            StabError::NotAccepted
        } else if !self.has_col(parent) {
            StabError::UnknownCollateral
        } else if !fits_fp(und) {
            StabError::Overflow
        } else if !fits_fp(self.col(parent).collateral_amount as int + und) {
            StabError::Overflow
        } else if !fits_fp(value) {
            StabError::Overflow
        } else if !fits_fp(debt_value) {
            StabError::Overflow
        } else if !fits_fp(gate) {
            StabError::Overflow
        } else if value < gate {
            StabError::InsufficientCollateral
        } else if mint == 0 || !fits_fp(cr) {
            StabError::Overflow
        } else if self.col(parent).initialized && self.col(parent).ratios.ids_at(cr as i128).len()
            >= self.parameters.max_vector_length {
            StabError::CrBucketFull
        } else if !fits_fp(new_col_minted) || !fits_fp(new_circ) || new_circ == 0 || !fits_fp(
            div_fp(new_col_minted, new_circ),
        ) {
            StabError::Overflow
        } else if div_fp(new_col_minted, new_circ) > self.col(parent).max_stab_share as int {
            StabError::ShareExceeded
        } else if pool && !fits_fp(self.pu(b.resource).minted_stab as int + mint) {
            StabError::Overflow
        } else if pool && (new_col_minted == 0 || !fits_fp(
            div_fp(self.pu(b.resource).minted_stab as int + mint, new_col_minted),
        )) {
            StabError::Overflow
        } else if pool && div_fp(self.pu(b.resource).minted_stab as int + mint, new_col_minted)
            > self.pu(b.resource).max_pool_share as int {
            StabError::ShareExceeded
        } else {
            StabError::Overflow
        }
    }

    /// Wrapped collateral counted in parent units at the snapshotted
    /// redemption rate; plain collateral counts as itself.
    fn pool_to_real(&self, amount: i128, res: u64, pool: bool) -> (r: Option<i128>)
        requires
            self.wf_base(),
            pool ==> self.has_pu(res),
            amount >= 0,
        ensures
            r matches Some(v) ==> v as int == self.spec_underlying(amount as int, res, pool) && v
                >= 0,
            r is Some <==> fits_fp(self.spec_underlying(amount as int, res, pool)),
    {
        if pool {
            let pi = match self.find_pu(res) {
                Some(pi) => pi,
                None => {
                    proof {
                        assert(false);
                    }
                    0
                },
            };
            proof {
                self.lemma_pu_at(pi as int);
            }
            let rate = self.pool_units[pi].redemption_rate;
            let r = dec_mul(amount, rate);
            proof {
                lemma_mul_fp_nonneg(amount as int, rate as int);
            }
            r
        } else {
            Some(amount)
        }
    }

    /// Open a position: lock the bucket as collateral, mint the
    /// requested debt against it, index the position by its collateral
    /// ratio and hand back the stablecoins with the position's id.
    /// Validate an `open_cdp` request and compute everything the commit
    /// step writes; read-only.
    #[verifier::rlimit(100)]
    #[verifier::spinoff_prover]
    fn open_plan(&self, collateral: Bucket, stab_to_mint: i128, safe: bool) -> (r: Result<
        OpenPlan,
        StabError,
    >)
        requires
            self.wf(),
            collateral.amount >= 0,
            stab_to_mint >= 0,
        ensures
            r is Ok <==> self.spec_open_ok(collateral, stab_to_mint, safe),
            r matches Err(e) ==> e == self.spec_open_err(collateral, stab_to_mint, safe),
            r matches Ok(p) ==> {
                let pool = self.is_pool(collateral.resource);
                let parent = self.parent_of(collateral.resource);
                let und = self.spec_underlying(
                    collateral.amount as int,
                    collateral.resource,
                    pool,
                );
                &&& p.is_pool == pool
                &&& (pool ==> p.pui < self.pool_units@.len()
                    && self.pool_units@[p.pui as int].address == collateral.resource
                    && self.pu_ix(collateral.resource) == p.pui)
                &&& p.ci < self.collaterals@.len()
                &&& self.collaterals@[p.ci as int].resource_address == parent
                &&& self.col_ix(parent) == p.ci
                &&& p.cr as int == div_fp(und, stab_to_mint as int)
                &&& p.cr >= 0
                &&& p.new_col_amt as int == self.col(parent).collateral_amount as int + und
                &&& p.new_col_minted as int == self.col(parent).minted_stab as int
                    + stab_to_mint
                &&& p.new_circ as int == self.circulating_stab as int + stab_to_mint
                &&& (pool ==> p.new_pu_minted as int == self.pu(
                    collateral.resource,
                ).minted_stab as int + stab_to_mint && p.new_pu_vault as int == self.pu(
                    collateral.resource,
                ).vault as int + collateral.amount)
                &&& (!pool ==> p.new_vault as int == self.col(parent).vault as int
                    + collateral.amount)
                &&& div_fp(p.new_col_minted as int, p.new_circ as int) <= self.col(
                    parent,
                ).max_stab_share as int
            },
    {
        proof {
            reveal(Stabilis::spec_open_ok);
            reveal(Stabilis::spec_open_err);
        }
        if stab_to_mint < self.parameters.minimum_mint {
            return Err(StabError::MinMintViolated);
        }
        if self.parameters.stop_openings {
            return Err(StabError::OperationStopped);
        }
        let pui_opt = self.find_pu(collateral.resource);
        let is_pool = pui_opt.is_some();
        let pui = match pui_opt {
            Some(pi) => {
                proof {
                    self.lemma_pu_at(pi as int);
                }
                if !self.pool_units[pi].accepted {
                    return Err(StabError::NotAccepted);
                }
                pi
            },
            None => 0,
        };
        let parent = if is_pool {
            self.pool_units[pui].parent_address
        } else {
            collateral.resource
        };
        if !is_pool {
            match self.find_col(collateral.resource) {
                None => {
                    return Err(StabError::UnknownCollateral);
                },
                Some(ci0) => {
                    proof {
                        self.lemma_col_at(ci0 as int);
                    }
                    if !self.collaterals[ci0].accepted {
                        return Err(StabError::NotAccepted);
                    }
                },
            }
        }
        let ci = match self.find_col(parent) {
            None => {
                return Err(StabError::UnknownCollateral);
            },
            Some(ci) => ci,
        };
        proof {
            self.lemma_col_at(ci as int);
        }
        let und = match self.pool_to_real(collateral.amount, collateral.resource, is_pool) {
            Some(v) => v,
            None => {
                return Err(StabError::Overflow);
            },
        };
        let new_col_amt = match add_fp(self.collaterals[ci].collateral_amount, und) {
            Some(v) => v,
            None => {
                return Err(StabError::Overflow);
            },
        };
        let value = match dec_mul(self.collaterals[ci].usd_price, und) {
            Some(v) => v,
            None => {
                return Err(StabError::Overflow);
            },
        };
        let debt_value = match dec_mul(self.internal_stab_price, stab_to_mint) {
            Some(v) => v,
            None => {
                return Err(StabError::Overflow);
            },
        };
        let gate_mult = if safe {
            self.collaterals[ci].mcr
        } else {
            SCALE / 4 * 3
        };
        let gate = match dec_mul(debt_value, gate_mult) {
            Some(v) => v,
            None => {
                return Err(StabError::Overflow);
            },
        };
        if value < gate {
            return Err(StabError::InsufficientCollateral);
        }
        let cr = match dec_div(und, stab_to_mint) {
            Some(v) => v,
            None => {
                return Err(StabError::Overflow);
            },
        };
        if self.collaterals[ci].initialized {
            let bl = self.collaterals[ci].ratios.bucket_len(cr);
            if bl as u64 >= self.parameters.max_vector_length {
                return Err(StabError::CrBucketFull);
            }
        }
        let new_col_minted = match add_fp(self.collaterals[ci].minted_stab, stab_to_mint) {
            Some(v) => v,
            None => {
                return Err(StabError::Overflow);
            },
        };
        let new_circ = match add_fp(self.circulating_stab, stab_to_mint) {
            Some(v) => v,
            None => {
                return Err(StabError::Overflow);
            },
        };
        let share = match dec_div(new_col_minted, new_circ) {
            Some(v) => v,
            None => {
                return Err(StabError::Overflow);
            },
        };
        if share > self.collaterals[ci].max_stab_share {
            return Err(StabError::ShareExceeded);
        }
        let mut new_pu_minted: i128 = 0;
        let mut new_pu_vault: i128 = 0;
        let mut new_vault: i128 = 0;
        if is_pool {
            new_pu_minted = match add_fp(self.pool_units[pui].minted_stab, stab_to_mint) {
                Some(v) => v,
                None => {
                    return Err(StabError::Overflow);
                },
            };
            let pshare = match dec_div(new_pu_minted, new_col_minted) {
                Some(v) => v,
                None => {
                    return Err(StabError::Overflow);
                },
            };
            if pshare > self.pool_units[pui].max_pool_share {
                return Err(StabError::ShareExceeded);
            }
            new_pu_vault = match add_fp(self.pool_units[pui].vault, collateral.amount) {
                Some(v) => v,
                None => {
                    return Err(StabError::Overflow);
                },
            };
        } else {
            new_vault = match add_fp(self.collaterals[ci].vault, collateral.amount) {
                Some(v) => v,
                None => {
                    return Err(StabError::Overflow);
                },
            };
        }
        proof {
            assert(self.spec_open_ok(collateral, stab_to_mint, safe));
            lemma_div_fp_nonneg(und as int, stab_to_mint as int);
        }
        Ok(OpenPlan {
            is_pool,
            pui,
            ci,
            cr,
            new_col_amt,
            new_col_minted,
            new_circ,
            new_pu_minted,
            new_pu_vault,
            new_vault,
        })
    }


    #[verifier::rlimit(100)]
    #[verifier::spinoff_prover]
    pub fn open_cdp(&mut self, collateral: Bucket, stab_to_mint: i128, safe: bool) -> (r: Result<
        (Bucket, u64),
        StabError,
    >)
        requires
            old(self).wf(),
            collateral.amount >= 0,
            stab_to_mint >= 0,
            old(self).cdps@.len() + 1 < u64::MAX,
        ensures
            final(self).wf(),
            r is Ok <==> old(self).spec_open_ok(collateral, stab_to_mint, safe),
            r is Err ==> *final(self) == *old(self) && r == Err::<(Bucket, u64), StabError>(
                old(self).spec_open_err(collateral, stab_to_mint, safe),
            ),
            r matches Ok(p) ==> {
                let pool = old(self).is_pool(collateral.resource);
                let parent = old(self).parent_of(collateral.resource);
                let und = old(self).spec_underlying(
                    collateral.amount as int,
                    collateral.resource,
                    pool,
                );
                let cr = div_fp(und, stab_to_mint as int);
                &&& p.0 == (Bucket { resource: old(self).stab_resource, amount: stab_to_mint })
                &&& p.1 == old(self).cdps@.len() + 1
                &&& final(self).cdps@ == old(self).cdps@.push(
                    Cdp {
                        collateral: collateral.resource,
                        parent_address: parent,
                        is_pool_unit_collateral: pool,
                        collateral_amount: collateral.amount,
                        minted_stab: stab_to_mint,
                        collateral_stab_ratio: cr as i128,
                        status: CdpStatus::Healthy,
                        marker_id: 0,
                    },
                )
                &&& final(self).circulating_stab == old(self).circulating_stab + stab_to_mint
                &&& final(self).has_col(parent)
                &&& final(self).col(parent).minted_stab
                    == old(self).col(parent).minted_stab + stab_to_mint
                &&& div_fp(final(self).col(parent).minted_stab as int, final(self).circulating_stab as int)
                    <= final(self).col(parent).max_stab_share as int
                &&& (!pool ==> final(self).col(parent).vault == old(self).col(parent).vault
                    + collateral.amount)
                &&& (pool ==> final(self).has_pu(collateral.resource)
                    && final(self).pu(collateral.resource).vault
                        == old(self).pu(collateral.resource).vault + collateral.amount
                    && final(self).pu(collateral.resource).minted_stab
                        == old(self).pu(collateral.resource).minted_stab + stab_to_mint)
                &&& final(self).markers@ == old(self).markers@
                &&& final(self).receipts@ == old(self).receipts@
                &&& final(self).marked_cdps == old(self).marked_cdps
                &&& final(self).internal_stab_price == old(self).internal_stab_price
                &&& final(self).stab_resource == old(self).stab_resource
                &&& final(self).parameters == old(self).parameters
            },
    {
        let ghost pre = *self;
        let plan = match self.open_plan(collateral, stab_to_mint, safe) {
            Err(e) => {
                return Err(e);
            },
            Ok(p) => p,
        };
        let is_pool = plan.is_pool;
        let pui = plan.pui;
        let ci = plan.ci;
        let cr = plan.cr;
        let parent = self.collaterals[ci].resource_address;
        let id64: u64 = (self.cdps.len() as u64) + 1;
        proof {
            if self.collaterals@[ci as int].ratios.contains_id(cr, id64) {
                assert(self.has_cdp(id64));
            }
        }
        let was_init = self.collaterals[ci].initialized;
        self.collaterals[ci].ratios.insert(cr, id64);
        self.collaterals[ci].minted_stab = plan.new_col_minted;
        self.collaterals[ci].collateral_amount = plan.new_col_amt;
        self.collaterals[ci].initialized = true;
        if !was_init || cr > self.collaterals[ci].highest_cr {
            self.collaterals[ci].highest_cr = cr;
        }
        if is_pool {
            self.pool_units[pui].minted_stab = plan.new_pu_minted;
            self.pool_units[pui].vault = plan.new_pu_vault;
        } else {
            self.collaterals[ci].vault = plan.new_vault;
        }
        self.circulating_stab = plan.new_circ;
        let cdp = Cdp {
            collateral: collateral.resource,
            parent_address: parent,
            is_pool_unit_collateral: is_pool,
            collateral_amount: collateral.amount,
            minted_stab: stab_to_mint,
            collateral_stab_ratio: cr,
            status: CdpStatus::Healthy,
            marker_id: 0,
        };
        self.cdps.push(cdp);
        proof {
            assert(self.collaterals@ =~= pre.collaterals@.update(
                ci as int,
                self.collaterals@[ci as int],
            ));
            if is_pool {
                assert(self.pool_units@ =~= pre.pool_units@.update(
                    pui as int,
                    self.pool_units@[pui as int],
                ));
            }
            assert(open_rel(pre, *self, collateral, stab_to_mint, ci as int, pui as int, cdp, cr, id64));
            open_commit_wf(pre, *self, collateral, stab_to_mint, ci as int, pui as int, cdp, cr, id64);
        }
        Ok((Bucket { resource: self.stab_resource, amount: stab_to_mint }, id64))
    }

    /// The position a receipt id names.
    fn get_cdp(&self, id: u64) -> (c: Cdp)
        requires
            self.has_cdp(id),
        ensures
            c == self.cdp_of(id),
    {
        let n = self.cdps.len();
        proof {
            assert(id - 1 < n);
        }
        self.cdps[(id - 1) as usize]
    }

    /// Overwrite the position a receipt id names.
    fn set_cdp(&mut self, id: u64, c: Cdp)
        requires
            old(self).has_cdp(id),
        ensures
            final(self).cdps@ == old(self).cdps@.update(id - 1, c),
            final(self).collaterals == old(self).collaterals,
            final(self).pool_units == old(self).pool_units,
            final(self).markers == old(self).markers,
            final(self).receipts == old(self).receipts,
            final(self).marked_cdps == old(self).marked_cdps,
            final(self).marked_cdps_active == old(self).marked_cdps_active,
            final(self).marker_placing_counter == old(self).marker_placing_counter,
            final(self).internal_stab_price == old(self).internal_stab_price,
            final(self).circulating_stab == old(self).circulating_stab,
            final(self).stab_resource == old(self).stab_resource,
            final(self).parameters == old(self).parameters,
    {
        let n = self.cdps.len();
        proof {
            assert(id - 1 < n);
        }
        self.cdps[(id - 1) as usize] = c;
    }

    /// All conditions under which `close_cdp` succeeds.
    pub open spec fn spec_close_ok(self, id: u64, payment: Bucket) -> bool {
        let c = self.cdp_of(id);
        let adj = mul_fp(c.collateral_stab_ratio as int, c.minted_stab as int);
        &&& payment.amount >= c.minted_stab
        &&& !self.parameters.stop_closings
        &&& c.status == CdpStatus::Healthy
        &&& payment.resource == self.stab_resource
        &&& fits_fp(adj)
        &&& fits_fp(self.col(c.parent_address).collateral_amount as int - adj)
    }

    /// The error `close_cdp` reports, the first failed check in order.
    pub open spec fn spec_close_err(self, id: u64, payment: Bucket) -> StabError {
        let c = self.cdp_of(id);
        if payment.amount < c.minted_stab {
            StabError::InsufficientPayment
        } else if self.parameters.stop_closings {
            StabError::OperationStopped
        } else if c.status != CdpStatus::Healthy {
            StabError::WrongStatus
        } else if payment.resource != self.stab_resource {
            StabError::WrongResource
        } else {
            StabError::Overflow
        }
    }

    /// What a successful `close_cdp` returns and leaves behind: the
    /// whole collateral and the overpayment come back, the debt is
    /// burnt out of every total, the position ends closed and empty.
    pub open spec fn close_post(
        pre: Stabilis,
        post: Stabilis,
        id: u64,
        payment: Bucket,
        out: (Bucket, Bucket),
    ) -> bool {
        let c = pre.cdp_of(id);
        let adj = mul_fp(c.collateral_stab_ratio as int, c.minted_stab as int);
        &&& out.0 == (Bucket { resource: c.collateral, amount: c.collateral_amount })
        &&& out.1.resource == payment.resource
        &&& out.1.amount == payment.amount - c.minted_stab
        &&& post.cdps@ == pre.cdps@.update(
            id - 1,
            Cdp { status: CdpStatus::Closed, collateral_amount: 0, ..c },
        )
        &&& post.circulating_stab == pre.circulating_stab - c.minted_stab
        &&& post.col(c.parent_address).minted_stab == pre.col(c.parent_address).minted_stab
            - c.minted_stab
        &&& post.col(c.parent_address).collateral_amount as int == pre.col(
            c.parent_address,
        ).collateral_amount as int - adj
        &&& (!c.is_pool_unit_collateral ==> post.col(c.parent_address).vault == pre.col(
            c.parent_address,
        ).vault - c.collateral_amount)
        &&& (c.is_pool_unit_collateral ==> post.pu(c.collateral).vault == pre.pu(
            c.collateral,
        ).vault - c.collateral_amount && post.pu(c.collateral).minted_stab == pre.pu(
            c.collateral,
        ).minted_stab - c.minted_stab)
        &&& post.markers@ == pre.markers@
        &&& post.receipts@ == pre.receipts@
        &&& post.internal_stab_price == pre.internal_stab_price
        &&& post.stab_resource == pre.stab_resource
        &&& post.parameters == pre.parameters
    }

    /// Close a healthy position: burn its whole debt out of the
    /// payment, hand back all its collateral and the leftover payment.
    #[verifier::rlimit(100)]
    #[verifier::spinoff_prover]
    pub fn close_cdp(&mut self, receipt_id: u64, stab_payment: Bucket) -> (r: Result<
        (Bucket, Bucket),
        StabError,
    >)
        requires
            old(self).wf(),
            old(self).has_cdp(receipt_id),
            stab_payment.amount >= 0,
        ensures
            final(self).wf(),
            r is Ok <==> old(self).spec_close_ok(receipt_id, stab_payment),
            r matches Err(e) ==> *final(self) == *old(self) && e == old(self).spec_close_err(
                receipt_id,
                stab_payment,
            ),
            r matches Ok(out) ==> Self::close_post(
                *old(self),
                *final(self),
                receipt_id,
                stab_payment,
                out,
            ),
    {
        let ghost pre = *self;
        let c = self.get_cdp(receipt_id);
        if stab_payment.amount < c.minted_stab {
            return Err(StabError::InsufficientPayment);
        }
        if self.parameters.stop_closings {
            return Err(StabError::OperationStopped);
        }
        if c.status != CdpStatus::Healthy {
            return Err(StabError::WrongStatus);
        }
        if stab_payment.resource != self.stab_resource {
            return Err(StabError::WrongResource);
        }
        proof {
            assert(pre.cdp_linked(receipt_id - 1));
        }
        let ci = match self.find_col(c.parent_address) {
            Some(ci) => ci,
            None => {
                proof {
                    assert(false);
                }
                return Err(StabError::UnknownCollateral);
            },
        };
        proof {
            self.lemma_col_at(ci as int);
        }
        let adj = match dec_mul(c.collateral_stab_ratio, c.minted_stab) {
            Some(v) => v,
            None => {
                return Err(StabError::Overflow);
            },
        };
        let new_col_amt = match sub_fp(self.collaterals[ci].collateral_amount, adj) {
            Some(v) => v,
            None => {
                return Err(StabError::Overflow);
            },
        };
        proof {
            lemma_debt_bounds(pre, receipt_id, ci as int);
        }
        let new_col_minted = self.collaterals[ci].minted_stab - c.minted_stab;
        let new_circ = self.circulating_stab - c.minted_stab;
        let newcdp = Cdp {
            status: CdpStatus::Closed,
            collateral_amount: 0,
            ..c
        };
        proof {
            assert(pre.cdps@[receipt_id - 1].status == CdpStatus::Healthy);
            assert(pre.col(c.parent_address).ratios.contains_id(
                c.collateral_stab_ratio,
                receipt_id,
            ));
        }
        self.collaterals[ci].ratios.remove(c.collateral_stab_ratio, receipt_id);
        self.collaterals[ci].minted_stab = new_col_minted;
        self.collaterals[ci].collateral_amount = new_col_amt;
        self.circulating_stab = new_circ;
        let mut pui: usize = 0;
        if c.is_pool_unit_collateral {
            pui = match self.find_pu(c.collateral) {
                Some(pi) => pi,
                None => {
                    proof {
                        assert(false);
                    }
                    0
                },
            };
            proof {
                pre.lemma_pu_at(pui as int);
                lemma_pu_debt_bounds(pre, receipt_id, pui as int);
            }
            self.pool_units[pui].minted_stab = self.pool_units[pui].minted_stab - c.minted_stab;
            self.pool_units[pui].vault = self.pool_units[pui].vault - c.collateral_amount;
        } else {
            self.collaterals[ci].vault = self.collaterals[ci].vault - c.collateral_amount;
        }
        self.set_cdp(receipt_id, newcdp);
        proof {
            assert(self.collaterals@ =~= pre.collaterals@.update(
                ci as int,
                self.collaterals@[ci as int],
            ));
            if c.is_pool_unit_collateral {
                assert(self.pool_units@ =~= pre.pool_units@.update(
                    pui as int,
                    self.pool_units@[pui as int],
                ));
            }
            assert(update_rel(
                pre,
                *self,
                receipt_id,
                newcdp,
                ci as int,
                pui as int,
                true,
                c.collateral_stab_ratio,
                false,
                0,
            ));
            update_commit_wf(
                pre,
                *self,
                receipt_id,
                newcdp,
                ci as int,
                pui as int,
                true,
                c.collateral_stab_ratio,
                false,
                0,
            );
        }
        Ok(
            (
                Bucket { resource: c.collateral, amount: c.collateral_amount },
                Bucket { resource: stab_payment.resource, amount: stab_payment.amount - c.minted_stab },
            ),
        )
    }

    /// Take the collateral a liquidation left on a position.
    #[verifier::rlimit(100)]
    #[verifier::spinoff_prover]
    pub fn retrieve_leftover_collateral(&mut self, receipt_id: u64) -> (r: Result<
        Bucket,
        StabError,
    >)
        requires
            old(self).wf(),
            old(self).has_cdp(receipt_id),
        ensures
            final(self).wf(),
            r is Ok <==> {
                let c = old(self).cdp_of(receipt_id);
                &&& (c.status == CdpStatus::Liquidated || c.status == CdpStatus::ForceLiquidated)
                &&& c.collateral_amount > 0
                &&& !old(self).parameters.stop_closings
            },
            r matches Err(e) ==> *final(self) == *old(self) && {
                let c = old(self).cdp_of(receipt_id);
                e == if c.status != CdpStatus::Liquidated && c.status
                    != CdpStatus::ForceLiquidated {
                    StabError::WrongStatus
                } else if c.collateral_amount <= 0 {
                    StabError::InsufficientCollateral
                } else {
                    StabError::OperationStopped
                }
            },
            r matches Ok(out) ==> {
                let c = old(self).cdp_of(receipt_id);
                &&& out == (Bucket { resource: c.collateral, amount: c.collateral_amount })
                &&& final(self).cdps@ == old(self).cdps@.update(
                    receipt_id - 1,
                    Cdp { collateral_amount: 0, ..c },
                )
                &&& final(self).circulating_stab == old(self).circulating_stab
                &&& final(self).markers@ == old(self).markers@
                &&& final(self).receipts@ == old(self).receipts@
            },
    {
        let ghost pre = *self;
        let c = self.get_cdp(receipt_id);
        if !(c.status == CdpStatus::Liquidated || c.status == CdpStatus::ForceLiquidated) {
            return Err(StabError::WrongStatus);
        }
        if c.collateral_amount <= 0 {
            return Err(StabError::InsufficientCollateral);
        }
        if self.parameters.stop_closings {
            return Err(StabError::OperationStopped);
        }
        proof {
            assert(pre.cdp_linked(receipt_id - 1));
        }
        let ci = match self.find_col(c.parent_address) {
            Some(ci) => ci,
            None => {
                proof {
                    assert(false);
                }
                return Err(StabError::UnknownCollateral);
            },
        };
        proof {
            self.lemma_col_at(ci as int);
        }
        let newcdp = Cdp { collateral_amount: 0, ..c };
        let mut pui: usize = 0;
        if c.is_pool_unit_collateral {
            pui = match self.find_pu(c.collateral) {
                Some(pi) => pi,
                None => {
                    proof {
                        assert(false);
                    }
                    0
                },
            };
            proof {
                pre.lemma_pu_at(pui as int);
                lemma_pu_debt_bounds(pre, receipt_id, pui as int);
            }
            self.pool_units[pui].vault = self.pool_units[pui].vault - c.collateral_amount;
        } else {
            proof {
                lemma_debt_bounds(pre, receipt_id, ci as int);
            }
            self.collaterals[ci].vault = self.collaterals[ci].vault - c.collateral_amount;
        }
        self.set_cdp(receipt_id, newcdp);
        proof {
            assert(self.collaterals@ =~= pre.collaterals@.update(
                ci as int,
                self.collaterals@[ci as int],
            ));
            if c.is_pool_unit_collateral {
                assert(self.pool_units@ =~= pre.pool_units@.update(
                    pui as int,
                    self.pool_units@[pui as int],
                ));
            }
            assert(update_rel(pre, *self, receipt_id, newcdp, ci as int, pui as int, false, 0, false, 0));
            update_commit_wf(pre, *self, receipt_id, newcdp, ci as int, pui as int, false, 0, false, 0);
        }
        Ok(Bucket { resource: c.collateral, amount: c.collateral_amount })
    }

    /// The error a reindexing step reports, the first failed check.
    pub open spec fn spec_reindex_err(self, id: u64, amount: int, debt: int, min_cr: int) -> StabError {
        let c = self.cdp_of(id);
        let cr = self.new_cr_of(id, amount, debt);
        if !(fits_fp(cr) && debt != 0 && fits_fp(
            self.spec_underlying(amount, c.collateral, c.is_pool_unit_collateral),
        )) {
            StabError::Overflow
        } else if cr <= min_cr {
            StabError::WouldFallBelowMcr
        } else if self.col(c.parent_address).ratios.ids_at(cr as i128).remove_value(id).len()
            >= self.parameters.max_vector_length {
            StabError::CrBucketFull
        } else {
            StabError::Overflow
        }
    }

    /// Conditions shared by every operation that moves a healthy
    /// position to a new ratio `cr` against debt `debt`: the ratio is
    /// representable, above the parent's liquidation threshold, its
    /// bucket has room, and the accounting adjustment fits.
    pub open spec fn reindex_ok(self, id: u64, amount: int, debt: int, cr: int, min_cr: int) -> bool {
        let c = self.cdp_of(id);
        let col = self.col(c.parent_address);
        let adj = mul_fp(cr - c.collateral_stab_ratio as int, c.minted_stab as int);
        &&& debt != 0
        &&& fits_fp(self.spec_underlying(amount, c.collateral, c.is_pool_unit_collateral))
        &&& fits_fp(cr)
        &&& fits_fp(cr - c.collateral_stab_ratio as int)
        &&& fits_fp(adj)
        &&& fits_fp(col.collateral_amount as int + adj)
        &&& cr > min_cr
        &&& self.col(c.parent_address).ratios.ids_at(cr as i128).remove_value(id).len()
            < self.parameters.max_vector_length
        &&& fits_fp(col.minted_stab as int - c.minted_stab + debt)
        &&& fits_fp(self.circulating_stab as int - c.minted_stab + debt)
        &&& (c.is_pool_unit_collateral ==> fits_fp(
            self.pu(c.collateral).minted_stab as int - c.minted_stab + debt,
        ))
    }

    /// The new ratio after changing a position's collateral or debt.
    pub open spec fn new_cr_of(self, id: u64, amount: int, debt: int) -> int {
        let c = self.cdp_of(id);
        div_fp(self.spec_underlying(amount, c.collateral, c.is_pool_unit_collateral), debt)
    }

    /// All conditions under which `remove_collateral` succeeds.
    pub open spec fn spec_remove_ok(self, id: u64, amount: i128) -> bool {
        let c = self.cdp_of(id);
        &&& c.status == CdpStatus::Healthy
        &&& amount <= c.collateral_amount
        &&& self.reindex_ok(
            id,
            c.collateral_amount - amount,
            c.minted_stab as int,
            self.new_cr_of(id, c.collateral_amount - amount, c.minted_stab as int),
            self.col(c.parent_address).liquidation_collateral_ratio as int,
        )
    }

    /// Withdraw part of a healthy position's collateral; the remainder
    /// must keep the position above the liquidation threshold.
    #[verifier::rlimit(100)]
    #[verifier::spinoff_prover]
    pub fn remove_collateral(&mut self, receipt_id: u64, amount: i128) -> (r: Result<
        Bucket,
        StabError,
    >)
        requires
            old(self).wf(),
            old(self).has_cdp(receipt_id),
            amount >= 0,
        ensures
            final(self).wf(),
            r is Ok <==> old(self).spec_remove_ok(receipt_id, amount),
            r matches Err(e) ==> *final(self) == *old(self) && {
                let c = old(self).cdp_of(receipt_id);
                e == if c.status != CdpStatus::Healthy {
                    StabError::WrongStatus
                } else if amount > c.collateral_amount {
                    StabError::InsufficientCollateral
                } else {
                    old(self).spec_reindex_err(
                        receipt_id,
                        c.collateral_amount - amount,
                        c.minted_stab as int,
                        old(self).col(c.parent_address).liquidation_collateral_ratio as int,
                    )
                }
            },
            r matches Ok(out) ==> {
                let c = old(self).cdp_of(receipt_id);
                let cr = old(self).new_cr_of(
                    receipt_id,
                    c.collateral_amount - amount,
                    c.minted_stab as int,
                );
                &&& out == (Bucket { resource: c.collateral, amount: amount })
                &&& final(self).cdps@ == old(self).cdps@.update(
                    receipt_id - 1,
                    Cdp {
                        collateral_amount: (c.collateral_amount - amount) as i128,
                        collateral_stab_ratio: cr as i128,
                        ..c
                    },
                )
                &&& final(self).circulating_stab == old(self).circulating_stab
                &&& final(self).markers@ == old(self).markers@
                &&& final(self).receipts@ == old(self).receipts@
            },
    {
        let ghost pre = *self;
        let c = self.get_cdp(receipt_id);
        if c.status != CdpStatus::Healthy {
            return Err(StabError::WrongStatus);
        }
        if amount > c.collateral_amount {
            return Err(StabError::InsufficientCollateral);
        }
        let new_amount = c.collateral_amount - amount;
        let floor = match self.find_col(c.parent_address) {
            Some(ci) => {
                proof {
                    self.lemma_col_at(ci as int);
                }
                self.collaterals[ci].liquidation_collateral_ratio
            },
            None => {
                proof {
                    assert(pre.cdp_linked(receipt_id - 1));
                    assert(false);
                }
                0
            },
        };
        self.reindex_position(receipt_id, new_amount, c.minted_stab, amount, 0, floor)
    }

    /// Move a healthy position to the ratio implied by a new collateral
    /// amount and debt, withdrawing `take_out` or storing `put_in`
    /// wrapped units; debt totals are untouched.
    #[verifier::rlimit(100)]
    #[verifier::spinoff_prover]
    fn reindex_position(
        &mut self,
        receipt_id: u64,
        new_amount: i128,
        debt: i128,
        take_out: i128,
        put_in: i128,
        min_cr: i128,
    ) -> (r: Result<Bucket, StabError>)
        requires
            old(self).wf(),
            old(self).has_cdp(receipt_id),
            old(self).cdp_of(receipt_id).status == CdpStatus::Healthy,
            debt >= 0,
            new_amount >= 0,
            take_out >= 0,
            put_in >= 0,
            take_out <= old(self).cdp_of(receipt_id).collateral_amount,
            new_amount == old(self).cdp_of(receipt_id).collateral_amount - take_out + put_in,
            fits_fp(old(self).cdp_of(receipt_id).collateral_amount as int + put_in),
            (if old(self).cdp_of(receipt_id).is_pool_unit_collateral {
                fits_fp(
                    old(self).pu(old(self).cdp_of(receipt_id).collateral).vault as int + put_in,
                )
            } else {
                fits_fp(
                    old(self).col(old(self).cdp_of(receipt_id).parent_address).vault as int
                        + put_in,
                )
            }),
        ensures
            final(self).wf(),
            r is Ok <==> old(self).reindex_ok(
                receipt_id,
                new_amount as int,
                debt as int,
                old(self).new_cr_of(receipt_id, new_amount as int, debt as int),
                min_cr as int,
            ),
            r matches Err(e) ==> *final(self) == *old(self) && e == old(
                self,
            ).spec_reindex_err(receipt_id, new_amount as int, debt as int, min_cr as int),
            r matches Ok(out) ==> {
                let c = old(self).cdp_of(receipt_id);
                let cr = old(self).new_cr_of(receipt_id, new_amount as int, debt as int);
                &&& out == (Bucket { resource: c.collateral, amount: take_out })
                &&& final(self).cdps@ == old(self).cdps@.update(
                    receipt_id - 1,
                    Cdp {
                        collateral_amount: new_amount,
                        minted_stab: debt,
                        collateral_stab_ratio: cr as i128,
                        ..c
                    },
                )
                &&& final(self).circulating_stab as int == old(self).circulating_stab as int
                    - c.minted_stab + debt
                &&& final(self).has_col(c.parent_address)
                &&& final(self).col(c.parent_address).minted_stab as int == old(self).col(
                    c.parent_address,
                ).minted_stab as int - c.minted_stab + debt
                &&& final(self).col(c.parent_address).collateral_amount as int == old(self).col(
                    c.parent_address,
                ).collateral_amount as int + mul_fp(
                    cr - c.collateral_stab_ratio as int,
                    c.minted_stab as int,
                )
                &&& (!c.is_pool_unit_collateral ==> final(self).col(c.parent_address).vault
                    as int == old(self).col(c.parent_address).vault - take_out + put_in)
                &&& (c.is_pool_unit_collateral ==> final(self).has_pu(c.collateral)
                    && final(self).pu(c.collateral).vault as int
                        == old(self).pu(c.collateral).vault - take_out + put_in
                    && final(self).pu(c.collateral).minted_stab as int
                        == old(self).pu(c.collateral).minted_stab as int - c.minted_stab + debt)
                &&& final(self).markers@ == old(self).markers@
                &&& final(self).receipts@ == old(self).receipts@
                &&& final(self).internal_stab_price == old(self).internal_stab_price
                &&& final(self).parameters == old(self).parameters
                &&& final(self).stab_resource == old(self).stab_resource
            },
    {
        let ghost pre = *self;
        let c = self.get_cdp(receipt_id);
        proof {
            assert(pre.cdp_linked(receipt_id - 1));
        }
        let ci = match self.find_col(c.parent_address) {
            Some(ci) => ci,
            None => {
                proof {
                    assert(false);
                }
                return Err(StabError::UnknownCollateral);
            },
        };
        proof {
            self.lemma_col_at(ci as int);
        }
        let und = match self.pool_to_real(new_amount, c.collateral, c.is_pool_unit_collateral) {
            Some(v) => v,
            None => {
                return Err(StabError::Overflow);
            },
        };
        let cr = match dec_div(und, debt) {
            Some(v) => v,
            None => {
                return Err(StabError::Overflow);
            },
        };
        if cr <= min_cr {
            return Err(StabError::WouldFallBelowMcr);
        }
        proof {
            assert(pre.cdps@[receipt_id - 1].status == CdpStatus::Healthy);
            assert(pre.col(c.parent_address).ratios.contains_id(
                c.collateral_stab_ratio,
                receipt_id,
            ));
            lemma_div_fp_nonneg(und as int, debt as int);
        }
        let bl = self.bucket_room(ci, cr, c.collateral_stab_ratio, receipt_id);
        if !bl {
            return Err(StabError::CrBucketFull);
        }
        let delta = match sub_fp(cr, c.collateral_stab_ratio) {
            Some(v) => v,
            None => {
                return Err(StabError::Overflow);
            },
        };
        let adj = match dec_mul(delta, c.minted_stab) {
            Some(v) => v,
            None => {
                return Err(StabError::Overflow);
            },
        };
        let new_col_amt = match add_fp(self.collaterals[ci].collateral_amount, adj) {
            Some(v) => v,
            None => {
                return Err(StabError::Overflow);
            },
        };
        proof {
            lemma_debt_bounds(pre, receipt_id, ci as int);
        }
        let new_col_minted = match add_fp(self.collaterals[ci].minted_stab - c.minted_stab, debt) {
            Some(v) => v,
            None => {
                return Err(StabError::Overflow);
            },
        };
        let new_circ = match add_fp(self.circulating_stab - c.minted_stab, debt) {
            Some(v) => v,
            None => {
                return Err(StabError::Overflow);
            },
        };
        let mut pui: usize = 0;
        let mut new_pu_minted: i128 = 0;
        if c.is_pool_unit_collateral {
            proof {
                let w = pre.pu_ix(c.collateral);
                assert(self.pool_units@[w].address == c.collateral);
            }
            pui = match self.find_pu(c.collateral) {
                Some(pi) => pi,
                None => {
                    proof {
                        assert(false);
                    }
                    0
                },
            };
            proof {
                pre.lemma_pu_at(pui as int);
                lemma_pu_debt_bounds(pre, receipt_id, pui as int);
            }
            new_pu_minted = match add_fp(self.pool_units[pui].minted_stab - c.minted_stab, debt) {
                Some(v) => v,
                None => {
                    return Err(StabError::Overflow);
                },
            };
        }
        self.collaterals[ci].ratios.remove(c.collateral_stab_ratio, receipt_id);
        proof {
            if self.collaterals@[ci as int].ratios.contains_id(cr, receipt_id) {
                if cr == c.collateral_stab_ratio {
                    assert(!self.collaterals@[ci as int].ratios.contains_id(
                        c.collateral_stab_ratio,
                        receipt_id,
                    ));
                } else {
                    assert(pre.collaterals@[ci as int].ratios.contains_id(cr, receipt_id));
                    assert(pre.cdp_of(receipt_id).collateral_stab_ratio == cr);
                }
                assert(false);
            }
        }
        self.collaterals[ci].ratios.insert(cr, receipt_id);
        self.collaterals[ci].collateral_amount = new_col_amt;
        self.collaterals[ci].minted_stab = new_col_minted;
        self.circulating_stab = new_circ;
        if cr > self.collaterals[ci].highest_cr {
            self.collaterals[ci].highest_cr = cr;
        }
        if c.is_pool_unit_collateral {
            self.pool_units[pui].minted_stab = new_pu_minted;
            self.pool_units[pui].vault = self.pool_units[pui].vault - take_out + put_in;
        } else {
            self.collaterals[ci].vault = self.collaterals[ci].vault - take_out + put_in;
        }
        let newcdp = Cdp {
            collateral_amount: new_amount,
            minted_stab: debt,
            collateral_stab_ratio: cr,
            ..c
        };
        self.set_cdp(receipt_id, newcdp);
        proof {
            assert(self.collaterals@ =~= pre.collaterals@.update(
                ci as int,
                self.collaterals@[ci as int],
            ));
            if c.is_pool_unit_collateral {
                assert(self.pool_units@ =~= pre.pool_units@.update(
                    pui as int,
                    self.pool_units@[pui as int],
                ));
            }
            assert(update_rel(
                pre,
                *self,
                receipt_id,
                newcdp,
                ci as int,
                pui as int,
                true,
                c.collateral_stab_ratio,
                true,
                cr,
            ));
            update_commit_wf(
                pre,
                *self,
                receipt_id,
                newcdp,
                ci as int,
                pui as int,
                true,
                c.collateral_stab_ratio,
                true,
                cr,
            );
            self.lemma_col_at(ci as int);
            if c.is_pool_unit_collateral {
                self.lemma_pu_at(pui as int);
            }
        }
        Ok(Bucket { resource: c.collateral, amount: take_out })
    }

    /// All conditions under which `partial_close_cdp` succeeds.
    pub open spec fn spec_partial_close_ok(self, id: u64, repayment: Bucket) -> bool {
        let c = self.cdp_of(id);
        let new_debt = c.minted_stab - repayment.amount;
        &&& repayment.resource == self.stab_resource
        &&& new_debt >= self.parameters.minimum_mint
        &&& new_debt >= 0
        &&& c.status == CdpStatus::Healthy
        &&& self.reindex_ok(
            id,
            c.collateral_amount as int,
            new_debt,
            self.new_cr_of(id, c.collateral_amount as int, new_debt),
            self.col(c.parent_address).liquidation_collateral_ratio as int,
        )
    }

    /// Pay part of a position's debt back; the debt left must stay
    /// above the minimum and the ratio above the threshold.
    #[verifier::rlimit(100)]
    #[verifier::spinoff_prover]
    pub fn partial_close_cdp(&mut self, receipt_id: u64, repayment: Bucket) -> (r: Result<
        (),
        StabError,
    >)
        requires
            old(self).wf(),
            old(self).has_cdp(receipt_id),
            repayment.amount >= 0,
        ensures
            final(self).wf(),
            r is Ok <==> old(self).spec_partial_close_ok(receipt_id, repayment),
            r matches Err(e) ==> *final(self) == *old(self) && {
                let c = old(self).cdp_of(receipt_id);
                e == if repayment.resource != old(self).stab_resource {
                    StabError::WrongResource
                } else if c.minted_stab - repayment.amount < old(self).parameters.minimum_mint
                    || c.minted_stab - repayment.amount < 0 {
                    StabError::MinMintViolated
                } else if c.status != CdpStatus::Healthy {
                    StabError::WrongStatus
                } else {
                    old(self).spec_reindex_err(
                        receipt_id,
                        c.collateral_amount as int,
                        c.minted_stab - repayment.amount,
                        old(self).col(c.parent_address).liquidation_collateral_ratio as int,
                    )
                }
            },
            r is Ok ==> {
                let c = old(self).cdp_of(receipt_id);
                let new_debt = (c.minted_stab - repayment.amount) as i128;
                let cr = old(self).new_cr_of(receipt_id, c.collateral_amount as int, new_debt as int);
                &&& final(self).cdps@ == old(self).cdps@.update(
                    receipt_id - 1,
                    Cdp { minted_stab: new_debt, collateral_stab_ratio: cr as i128, ..c },
                )
                &&& final(self).circulating_stab == old(self).circulating_stab
                    - repayment.amount
                &&& final(self).col(c.parent_address).minted_stab == old(self).col(
                    c.parent_address,
                ).minted_stab - repayment.amount
                &&& final(self).markers@ == old(self).markers@
                &&& final(self).receipts@ == old(self).receipts@
            },
    {
        let c = self.get_cdp(receipt_id);
        if repayment.resource != self.stab_resource {
            return Err(StabError::WrongResource);
        }
        if c.minted_stab - repayment.amount < self.parameters.minimum_mint || c.minted_stab
            - repayment.amount < 0 {
            return Err(StabError::MinMintViolated);
        }
        if c.status != CdpStatus::Healthy {
            return Err(StabError::WrongStatus);
        }
        let ghost pre = *self;
        proof {
            assert(pre.cdp_linked(receipt_id - 1));
        }
        let new_debt = c.minted_stab - repayment.amount;
        let floor = match self.find_col(c.parent_address) {
            Some(ci) => {
                proof {
                    self.lemma_col_at(ci as int);
                }
                self.collaterals[ci].liquidation_collateral_ratio
            },
            None => {
                proof {
                    assert(false);
                }
                0
            },
        };
        match self.reindex_position(receipt_id, c.collateral_amount, new_debt, 0, 0, floor) {
            Ok(_) => Ok(()),
            Err(e) => Err(e),
        }
    }

    /// The error `borrow_more` reports, the first failed check.
    pub open spec fn spec_borrow_err(self, id: u64, amount: i128) -> StabError {
        let c = self.cdp_of(id);
        let col = self.col(c.parent_address);
        let new_debt = c.minted_stab as int + amount;
        let new_col_minted = col.minted_stab as int + amount;
        let new_circ = self.circulating_stab as int + amount;
        if c.status != CdpStatus::Healthy {
            StabError::WrongStatus
        } else if !fits_fp(new_debt) {
            StabError::Overflow
        } else if !fits_fp(new_col_minted) {
            StabError::Overflow
        } else if !fits_fp(new_circ) {
            StabError::Overflow
        } else if new_circ == 0 || !fits_fp(div_fp(new_col_minted, new_circ)) {
            StabError::Overflow
        } else if div_fp(new_col_minted, new_circ) > col.max_stab_share as int {
            StabError::ShareExceeded
        } else if c.is_pool_unit_collateral && !fits_fp(
            self.pu(c.collateral).minted_stab as int + amount,
        ) {
            StabError::Overflow
        } else if c.is_pool_unit_collateral && (new_col_minted == 0 || !fits_fp(
            div_fp(self.pu(c.collateral).minted_stab as int + amount, new_col_minted),
        )) {
            StabError::Overflow
        } else if c.is_pool_unit_collateral && div_fp(
            self.pu(c.collateral).minted_stab as int + amount,
            new_col_minted,
        ) > self.pu(c.collateral).max_pool_share as int {
            StabError::ShareExceeded
        } else {
            self.spec_reindex_err(
                id,
                c.collateral_amount as int,
                new_debt,
                col.liquidation_collateral_ratio as int,
            )
        }
    }

    /// All conditions under which `borrow_more` succeeds.
    pub open spec fn spec_borrow_ok(self, id: u64, amount: i128) -> bool {
        let c = self.cdp_of(id);
        let new_debt = c.minted_stab + amount;
        let new_col_minted = self.col(c.parent_address).minted_stab as int + amount;
        let new_circ = self.circulating_stab as int + amount;
        &&& c.status == CdpStatus::Healthy
        &&& fits_fp(new_debt)
        &&& fits_fp(new_col_minted)
        &&& fits_fp(new_circ)
        &&& new_circ != 0
        &&& fits_fp(div_fp(new_col_minted, new_circ))
        &&& div_fp(new_col_minted, new_circ) <= self.col(c.parent_address).max_stab_share as int
        &&& (c.is_pool_unit_collateral ==> {
            let new_pu = self.pu(c.collateral).minted_stab as int + amount;
            &&& fits_fp(new_pu)
            &&& new_col_minted != 0
            &&& fits_fp(div_fp(new_pu, new_col_minted))
            &&& div_fp(new_pu, new_col_minted) <= self.pu(c.collateral).max_pool_share as int
        })
        &&& self.reindex_ok(
            id,
            c.collateral_amount as int,
            new_debt,
            self.new_cr_of(id, c.collateral_amount as int, new_debt),
            self.col(c.parent_address).liquidation_collateral_ratio as int,
        )
    }

    /// Mint more debt against a position's existing collateral, share
    /// caps and liquidation threshold permitting.
    #[verifier::rlimit(100)]
    #[verifier::spinoff_prover]
    pub fn borrow_more(&mut self, receipt_id: u64, amount: i128) -> (r: Result<
        Bucket,
        StabError,
    >)
        requires
            old(self).wf(),
            old(self).has_cdp(receipt_id),
            amount >= 0,
        ensures
            final(self).wf(),
            r is Ok <==> old(self).spec_borrow_ok(receipt_id, amount),
            r is Err ==> *final(self) == *old(self),
            r matches Err(e) ==> e == old(self).spec_borrow_err(receipt_id, amount),
            r matches Ok(out) ==> {
                let c = old(self).cdp_of(receipt_id);
                let new_debt = (c.minted_stab + amount) as i128;
                let cr = old(self).new_cr_of(receipt_id, c.collateral_amount as int, new_debt as int);
                &&& out == (Bucket { resource: old(self).stab_resource, amount: amount })
                &&& final(self).cdps@ == old(self).cdps@.update(
                    receipt_id - 1,
                    Cdp { minted_stab: new_debt, collateral_stab_ratio: cr as i128, ..c },
                )
                &&& final(self).circulating_stab == old(self).circulating_stab + amount
                &&& final(self).col(c.parent_address).minted_stab == old(self).col(
                    c.parent_address,
                ).minted_stab + amount
                &&& final(self).markers@ == old(self).markers@
                &&& final(self).receipts@ == old(self).receipts@
            },
    {
        let ghost pre = *self;
        let c = self.get_cdp(receipt_id);
        if c.status != CdpStatus::Healthy {
            return Err(StabError::WrongStatus);
        }
        let new_debt = match add_fp(c.minted_stab, amount) {
            Some(v) => v,
            None => {
                return Err(StabError::Overflow);
            },
        };
        proof {
            assert(pre.cdp_linked(receipt_id - 1));
        }
        let ci = match self.find_col(c.parent_address) {
            Some(ci) => ci,
            None => {
                proof {
                    assert(false);
                }
                return Err(StabError::UnknownCollateral);
            },
        };
        proof {
            self.lemma_col_at(ci as int);
        }
        let new_col_minted = match add_fp(self.collaterals[ci].minted_stab, amount) {
            Some(v) => v,
            None => {
                return Err(StabError::Overflow);
            },
        };
        let new_circ = match add_fp(self.circulating_stab, amount) {
            Some(v) => v,
            None => {
                return Err(StabError::Overflow);
            },
        };
        let share = match dec_div(new_col_minted, new_circ) {
            Some(v) => v,
            None => {
                return Err(StabError::Overflow);
            },
        };
        if share > self.collaterals[ci].max_stab_share {
            return Err(StabError::ShareExceeded);
        }
        if c.is_pool_unit_collateral {
            let pui = match self.find_pu(c.collateral) {
                Some(pi) => pi,
                None => {
                    proof {
                        assert(false);
                    }
                    return Err(StabError::UnknownCollateral);
                },
            };
            proof {
                self.lemma_pu_at(pui as int);
            }
            let new_pu = match add_fp(self.pool_units[pui].minted_stab, amount) {
                Some(v) => v,
                None => {
                    return Err(StabError::Overflow);
                },
            };
            let pshare = match dec_div(new_pu, new_col_minted) {
                Some(v) => v,
                None => {
                    return Err(StabError::Overflow);
                },
            };
            if pshare > self.pool_units[pui].max_pool_share {
                return Err(StabError::ShareExceeded);
            }
        }
        let floor = self.collaterals[ci].liquidation_collateral_ratio;
        match self.reindex_position(receipt_id, c.collateral_amount, new_debt, 0, 0, floor) {
            Ok(_) => Ok(Bucket { resource: self.stab_resource, amount: amount }),
            Err(e) => Err(e),
        }
    }

    /// The error `top_up_cdp` reports, the first failed check; a ratio
    /// still under the threshold reads as a failed save.
    pub open spec fn spec_top_up_err(self, id: u64, collateral: Bucket) -> StabError {
        let c = self.cdp_of(id);
        let re = self.spec_reindex_err(
            id,
            c.collateral_amount as int + collateral.amount,
            c.minted_stab as int,
            self.col(c.parent_address).liquidation_collateral_ratio as int,
        );
        if !(c.status == CdpStatus::Healthy || c.status == CdpStatus::Marked) {
            StabError::WrongStatus
        } else if collateral.resource != c.collateral {
            StabError::WrongResource
        } else if !fits_fp(c.collateral_amount as int + collateral.amount) {
            StabError::Overflow
        } else if !(if c.is_pool_unit_collateral {
            fits_fp(self.pu(c.collateral).vault as int + collateral.amount)
        } else {
            fits_fp(self.col(c.parent_address).vault as int + collateral.amount)
        }) {
            StabError::Overflow
        } else if re == StabError::WouldFallBelowMcr {
            StabError::InsufficientSave
        } else {
            re
        }
    }

    /// All conditions under which `top_up_cdp` succeeds on a healthy
    /// position.
    pub open spec fn spec_top_up_ok(self, id: u64, collateral: Bucket) -> bool {
        let c = self.cdp_of(id);
        &&& (c.status == CdpStatus::Healthy || c.status == CdpStatus::Marked)
        &&& collateral.resource == c.collateral
        &&& fits_fp(c.collateral_amount as int + collateral.amount)
        &&& (if c.is_pool_unit_collateral {
            fits_fp(self.pu(c.collateral).vault as int + collateral.amount)
        } else {
            fits_fp(self.col(c.parent_address).vault as int + collateral.amount)
        })
        &&& self.reindex_ok(
            id,
            c.collateral_amount as int + collateral.amount,
            c.minted_stab as int,
            self.new_cr_of(
                id,
                c.collateral_amount as int + collateral.amount,
                c.minted_stab as int,
            ),
            self.col(c.parent_address).liquidation_collateral_ratio as int,
        )
    }

    /// Add collateral to a healthy or marked position; a marked
    /// position that ends above the threshold is saved: its marker is
    /// consumed and it leaves the marked index.
    #[verifier::rlimit(100)]
    #[verifier::spinoff_prover]
    pub fn top_up_cdp(&mut self, receipt_id: u64, collateral: Bucket) -> (r: Result<
        (),
        StabError,
    >)
        requires
            old(self).wf(),
            old(self).has_cdp(receipt_id),
            collateral.amount >= 0,
        ensures
            final(self).wf(),
            r is Ok <==> old(self).spec_top_up_ok(receipt_id, collateral),
            r is Err ==> *final(self) == *old(self),
            r matches Err(e) ==> e == old(self).spec_top_up_err(receipt_id, collateral),
            r is Ok ==> {
                let c = old(self).cdp_of(receipt_id);
                let cr = old(self).new_cr_of(
                    receipt_id,
                    c.collateral_amount as int + collateral.amount,
                    c.minted_stab as int,
                );
                &&& final(self).cdps@ == old(self).cdps@.update(
                    receipt_id - 1,
                    Cdp {
                        collateral_amount: (c.collateral_amount + collateral.amount) as i128,
                        collateral_stab_ratio: cr as i128,
                        status: CdpStatus::Healthy,
                        ..c
                    },
                )
                &&& final(self).circulating_stab == old(self).circulating_stab
                &&& (!c.is_pool_unit_collateral ==> final(self).col(c.parent_address).vault
                    == old(self).col(c.parent_address).vault + collateral.amount)
                &&& (c.is_pool_unit_collateral ==> final(self).pu(c.collateral).vault == old(
                    self,
                ).pu(c.collateral).vault + collateral.amount)
                &&& (c.status == CdpStatus::Marked ==> final(self).markers@ == old(
                    self,
                ).markers@.update(
                    c.marker_id - 1,
                    CdpMarker { used: true, ..old(self).marker_of(c.marker_id) },
                ))
                &&& (c.status == CdpStatus::Healthy ==> final(self).markers@ == old(
                    self,
                ).markers@)
                &&& final(self).receipts@ == old(self).receipts@
            },
    {
        let ghost pre = *self;
        let c = self.get_cdp(receipt_id);
        if !(c.status == CdpStatus::Healthy || c.status == CdpStatus::Marked) {
            return Err(StabError::WrongStatus);
        }
        if collateral.resource != c.collateral {
            return Err(StabError::WrongResource);
        }
        let new_amount = match add_fp(c.collateral_amount, collateral.amount) {
            Some(v) => v,
            None => {
                return Err(StabError::Overflow);
            },
        };
        proof {
            assert(pre.cdp_linked(receipt_id - 1));
        }
        if c.is_pool_unit_collateral {
            let pui0 = match self.find_pu(c.collateral) {
                Some(pi) => pi,
                None => {
                    proof {
                        assert(false);
                    }
                    return Err(StabError::UnknownCollateral);
                },
            };
            proof {
                self.lemma_pu_at(pui0 as int);
            }
            if i128::MAX - collateral.amount < self.pool_units[pui0].vault {
                return Err(StabError::Overflow);
            }
        } else {
            let ci0 = match self.find_col(c.parent_address) {
                Some(ci) => ci,
                None => {
                    proof {
                        assert(false);
                    }
                    return Err(StabError::UnknownCollateral);
                },
            };
            proof {
                self.lemma_col_at(ci0 as int);
            }
            if i128::MAX - collateral.amount < self.collaterals[ci0].vault {
                return Err(StabError::Overflow);
            }
        }
        if c.status == CdpStatus::Healthy {
            let floor = match self.find_col(c.parent_address) {
                Some(ci) => {
                    proof {
                        self.lemma_col_at(ci as int);
                    }
                    self.collaterals[ci].liquidation_collateral_ratio
                },
                None => {
                    proof {
                        assert(false);
                    }
                    0
                },
            };
            match self.reindex_position(
                receipt_id,
                new_amount,
                c.minted_stab,
                0,
                collateral.amount,
                floor,
            ) {
                Ok(_) => Ok(()),
                Err(StabError::WouldFallBelowMcr) => Err(StabError::InsufficientSave),
                Err(e) => Err(e),
            }
        } else {
            self.top_up_marked(receipt_id, collateral, new_amount)
        }
    }

    /// The marker a marker id names.
    fn get_marker(&self, id: u64) -> (m: CdpMarker)
        requires
            self.has_marker(id),
        ensures
            m == self.marker_of(id),
    {
        let n = self.markers.len();
        proof {
            assert(id - 1 < n);
        }
        self.markers[(id - 1) as usize]
    }

    /// Overwrite the marker a marker id names.
    fn set_marker(&mut self, id: u64, m: CdpMarker)
        requires
            old(self).has_marker(id),
        ensures
            final(self).markers@ == old(self).markers@.update(id - 1, m),
            final(self).collaterals == old(self).collaterals,
            final(self).pool_units == old(self).pool_units,
            final(self).cdps == old(self).cdps,
            final(self).receipts == old(self).receipts,
            final(self).marked_cdps == old(self).marked_cdps,
            final(self).marked_cdps_active == old(self).marked_cdps_active,
            final(self).marker_placing_counter == old(self).marker_placing_counter,
            final(self).internal_stab_price == old(self).internal_stab_price,
            final(self).circulating_stab == old(self).circulating_stab,
            final(self).stab_resource == old(self).stab_resource,
            final(self).parameters == old(self).parameters,
    {
        let n = self.markers.len();
        proof {
            assert(id - 1 < n);
        }
        self.markers[(id - 1) as usize] = m;
    }

    /// Save a marked position by collateral: index it at the new ratio,
    /// consume its marker and drop it from the marked index.
    #[verifier::rlimit(100)]
    #[verifier::spinoff_prover]
    fn top_up_marked(&mut self, receipt_id: u64, collateral: Bucket, new_amount: i128) -> (r:
        Result<(), StabError>)
        requires
            old(self).wf(),
            old(self).has_cdp(receipt_id),
            old(self).cdp_of(receipt_id).status == CdpStatus::Marked,
            collateral.resource == old(self).cdp_of(receipt_id).collateral,
            collateral.amount >= 0,
            new_amount == old(self).cdp_of(receipt_id).collateral_amount + collateral.amount,
            (if old(self).cdp_of(receipt_id).is_pool_unit_collateral {
                fits_fp(
                    old(self).pu(old(self).cdp_of(receipt_id).collateral).vault as int
                        + collateral.amount,
                )
            } else {
                fits_fp(
                    old(self).col(old(self).cdp_of(receipt_id).parent_address).vault as int
                        + collateral.amount,
                )
            }),
        ensures
            final(self).wf(),
            r is Ok <==> old(self).reindex_ok(
                receipt_id,
                new_amount as int,
                old(self).cdp_of(receipt_id).minted_stab as int,
                old(self).new_cr_of(
                    receipt_id,
                    new_amount as int,
                    old(self).cdp_of(receipt_id).minted_stab as int,
                ),
                old(self).col(
                    old(self).cdp_of(receipt_id).parent_address,
                ).liquidation_collateral_ratio as int,
            ),
            r is Err ==> *final(self) == *old(self),
            r matches Err(e) ==> e == {
                let c = old(self).cdp_of(receipt_id);
                let re = old(self).spec_reindex_err(
                    receipt_id,
                    new_amount as int,
                    c.minted_stab as int,
                    old(self).col(c.parent_address).liquidation_collateral_ratio as int,
                );
                if re == StabError::WouldFallBelowMcr {
                    StabError::InsufficientSave
                } else {
                    re
                }
            },
            r is Ok ==> {
                let c = old(self).cdp_of(receipt_id);
                let cr = old(self).new_cr_of(receipt_id, new_amount as int, c.minted_stab as int);
                &&& final(self).cdps@ == old(self).cdps@.update(
                    receipt_id - 1,
                    Cdp {
                        collateral_amount: new_amount,
                        collateral_stab_ratio: cr as i128,
                        status: CdpStatus::Healthy,
                        ..c
                    },
                )
                &&& final(self).circulating_stab == old(self).circulating_stab
                &&& (!c.is_pool_unit_collateral ==> final(self).col(c.parent_address).vault
                    == old(self).col(c.parent_address).vault + collateral.amount)
                &&& (c.is_pool_unit_collateral ==> final(self).pu(c.collateral).vault == old(
                    self,
                ).pu(c.collateral).vault + collateral.amount)
                &&& final(self).markers@ == old(self).markers@.update(
                    c.marker_id - 1,
                    CdpMarker { used: true, ..old(self).marker_of(c.marker_id) },
                )
                &&& final(self).receipts@ == old(self).receipts@
            },
    {
        let ghost pre = *self;
        let c = self.get_cdp(receipt_id);
        proof {
            assert(pre.cdp_linked(receipt_id - 1));
            assert(pre.marked_cdp_ok(receipt_id - 1));
        }
        let ci = match self.find_col(c.parent_address) {
            Some(ci) => ci,
            None => {
                proof {
                    assert(false);
                }
                return Err(StabError::Overflow);
            },
        };
        proof {
            self.lemma_col_at(ci as int);
        }
        let und = match self.pool_to_real(new_amount, c.collateral, c.is_pool_unit_collateral) {
            Some(v) => v,
            None => {
                return Err(StabError::Overflow);
            },
        };
        let cr = match dec_div(und, c.minted_stab) {
            Some(v) => v,
            None => {
                return Err(StabError::Overflow);
            },
        };
        if cr <= self.collaterals[ci].liquidation_collateral_ratio {
            return Err(StabError::InsufficientSave);
        }
        proof {
            lemma_div_fp_nonneg(und as int, c.minted_stab as int);
            if pre.col(c.parent_address).ratios.contains_id(cr, receipt_id) {
                assert(pre.cdp_of(receipt_id).status == CdpStatus::Healthy);
            }
            let s = pre.col(c.parent_address).ratios.ids_at(cr);
            s.index_of_first_ensures(receipt_id);
            assert(s.remove_value(receipt_id) == s);
        }
        let bl = self.collaterals[ci].ratios.bucket_len(cr);
        let bl64 = bl as u64;
        if bl64 >= self.parameters.max_vector_length {
            return Err(StabError::CrBucketFull);
        }
        let delta = match sub_fp(cr, c.collateral_stab_ratio) {
            Some(v) => v,
            None => {
                return Err(StabError::Overflow);
            },
        };
        let adj = match dec_mul(delta, c.minted_stab) {
            Some(v) => v,
            None => {
                return Err(StabError::Overflow);
            },
        };
        let new_col_amt = match add_fp(self.collaterals[ci].collateral_amount, adj) {
            Some(v) => v,
            None => {
                return Err(StabError::Overflow);
            },
        };
        let mid = c.marker_id;
        let marker = self.get_marker(mid);
        self.collaterals[ci].ratios.insert(cr, receipt_id);
        self.collaterals[ci].collateral_amount = new_col_amt;
        if cr > self.collaterals[ci].highest_cr {
            self.collaterals[ci].highest_cr = cr;
        }
        let mut pui: usize = 0;
        if c.is_pool_unit_collateral {
            proof {
                let w = pre.pu_ix(c.collateral);
                assert(self.pool_units@[w].address == c.collateral);
            }
            pui = match self.find_pu(c.collateral) {
                Some(pi) => pi,
                None => {
                    proof {
                        assert(false);
                    }
                    0
                },
            };
            proof {
                pre.lemma_pu_at(pui as int);
            }
            self.pool_units[pui].vault = self.pool_units[pui].vault + collateral.amount;
        } else {
            self.collaterals[ci].vault = self.collaterals[ci].vault + collateral.amount;
        }
        self.set_marker(mid, CdpMarker { used: true, ..marker });
        self.marked_cdps.remove_placing(marker.marker_placing);
        self.marked_cdps_active = self.marked_cdps_active - 1;
        let newcdp = Cdp {
            collateral_amount: new_amount,
            collateral_stab_ratio: cr,
            status: CdpStatus::Healthy,
            ..c
        };
        self.set_cdp(receipt_id, newcdp);
        proof {
            assert(self.collaterals@ =~= pre.collaterals@.update(
                ci as int,
                self.collaterals@[ci as int],
            ));
            if c.is_pool_unit_collateral {
                assert(self.pool_units@ =~= pre.pool_units@.update(
                    pui as int,
                    self.pool_units@[pui as int],
                ));
            }
            assert(update_rel(pre, *self, receipt_id, newcdp, ci as int, pui as int, false, 0, true, cr));
            update_commit_base(pre, *self, receipt_id, newcdp, ci as int, pui as int, false, 0, true, cr);
            update_commit_index(pre, *self, receipt_id, newcdp, ci as int, pui as int, false, 0, true, cr);
            update_commit_sums(pre, *self, receipt_id, newcdp, ci as int, pui as int, false, 0, true, cr);
            lemma_marks_unmark(pre, *self, receipt_id, newcdp);
            self.lemma_col_at(ci as int);
            if c.is_pool_unit_collateral {
                self.lemma_pu_at(pui as int);
            }
        }
        Ok(())
    }

    /// All conditions under which `mark_for_liquidation` succeeds:
    /// the collateral is known and indexed, its riskiest position's
    /// stored ratio sits below the threshold, and the fresh-ratio
    /// arithmetic is representable.
    pub open spec fn spec_mark_ok(self, collateral: u64) -> bool {
        let t = self.col(collateral).ratios;
        let id = t.entries@[0].ids@[0];
        let c = self.cdp_of(id);
        let und = self.spec_underlying(
            c.collateral_amount as int,
            c.collateral,
            c.is_pool_unit_collateral,
        );
        let cr = div_fp(und, c.minted_stab as int);
        let adj = mul_fp(cr - c.collateral_stab_ratio as int, c.minted_stab as int);
        &&& self.has_col(collateral)
        &&& t.entries@.len() > 0
        &&& c.collateral_stab_ratio < self.col(collateral).liquidation_collateral_ratio
        &&& fits_fp(und)
        &&& c.minted_stab != 0
        &&& fits_fp(cr)
        &&& fits_fp(cr - c.collateral_stab_ratio as int)
        &&& fits_fp(adj)
        &&& fits_fp(self.col(collateral).collateral_amount as int + adj)
    }

    /// The error `mark_for_liquidation` reports: eligibility is judged
    /// on the stored ratio key of the index's first position.
    pub open spec fn spec_mark_err(self, collateral: u64) -> StabError {
        let t = self.col(collateral).ratios;
        let id = t.entries@[0].ids@[0];
        if !self.has_col(collateral) {
            StabError::UnknownCollateral
        } else if t.entries@.len() == 0 {
            StabError::NoMarkable
        } else if self.cdp_of(id).collateral_stab_ratio >= self.col(
            collateral,
        ).liquidation_collateral_ratio {
            StabError::NoMarkable
        } else {
            StabError::Overflow
        }
    }

    /// What `mark_for_liquidation` does on success: the riskiest
    /// position of the collateral is either marked, or saved on the
    /// spot when the fresh redemption rate already clears the
    /// threshold and its new bucket has room.
    pub open spec fn mark_post(
        pre: Stabilis,
        post: Stabilis,
        collateral: u64,
        now: i64,
        mid: u64,
    ) -> bool {
        let t = pre.col(collateral).ratios;
        let id = t.entries@[0].ids@[0];
        let c = pre.cdp_of(id);
        let cr = pre.new_cr_of(id, c.collateral_amount as int, c.minted_stab as int);
        let saved = cr > pre.col(collateral).liquidation_collateral_ratio as int && t.ids_at(
            cr as i128,
        ).remove_value(id).len() < pre.parameters.max_vector_length;
        &&& pre.has_col(collateral)
        &&& t.entries@.len() > 0
        &&& c.collateral_stab_ratio < pre.col(collateral).liquidation_collateral_ratio
        &&& post.cdps@.len() == pre.cdps@.len()
        &&& post.circulating_stab == pre.circulating_stab
        &&& post.receipts@ == pre.receipts@
        &&& (if saved {
            &&& mid == pre.markers@.len() + 2
            &&& post.markers@.len() == pre.markers@.len() + 2
            &&& post.cdp_of(id).status == CdpStatus::Healthy
            &&& post.cdp_of(id).collateral_stab_ratio == cr
            &&& post.marker_of(mid).mark_type == CdpUpdate::Saved
            &&& !post.marker_of(mid).used
            &&& post.marker_of(mid).marked_id == id
            &&& post.marker_of(mid).marker_placing as int == pre.marker_placing_counter + 2
                * SCALE
            &&& post.marker_of(mid).time_marked == now
            &&& post.marker_of((mid - 1) as u64).used
            &&& post.marker_of((mid - 1) as u64).mark_type == CdpUpdate::Marked
            &&& post.marker_of((mid - 1) as u64).marker_placing as int
                == pre.marker_placing_counter + SCALE
            &&& post.marker_placing_counter == pre.marker_placing_counter + 2 * SCALE
            &&& post.marked_cdps == pre.marked_cdps
        } else {
            &&& mid == pre.markers@.len() + 1
            &&& post.markers@.len() == pre.markers@.len() + 1
            &&& post.cdp_of(id).status == CdpStatus::Marked
            &&& post.cdp_of(id).marker_id == mid
            &&& post.cdp_of(id).collateral_stab_ratio == cr
            &&& post.marker_of(mid).mark_type == CdpUpdate::Marked
            &&& post.marker_of(mid).time_marked == now
            &&& post.marker_of(mid).marked_id == id
            &&& post.marker_of(mid).marker_placing as int == pre.marker_placing_counter
                + SCALE
            &&& !post.marker_of(mid).used
            &&& post.marked_cdps.contains_placing(post.marker_of(mid).marker_placing)
        })
    }

    /// Mark the riskiest position of a collateral for liquidation, or
    /// save it at once when the fresh rate clears the threshold.
    #[verifier::rlimit(100)]
    #[verifier::spinoff_prover]
    pub fn mark_for_liquidation(&mut self, collateral: u64, now: i64) -> (r: Result<
        u64,
        StabError,
    >)
        requires
            old(self).wf(),
            old(self).markers@.len() + 2 < u64::MAX,
        ensures
            final(self).wf(),
            r is Err ==> *final(self) == *old(self),
            r is Ok <==> old(self).spec_mark_ok(collateral),
            r matches Err(e) ==> e == old(self).spec_mark_err(collateral),
            r matches Ok(mid) ==> Self::mark_post(*old(self), *final(self), collateral, now, mid),
    {
        let ghost pre = *self;
        let ci = match self.find_col(collateral) {
            Some(ci) => ci,
            None => {
                return Err(StabError::UnknownCollateral);
            },
        };
        proof {
            self.lemma_col_at(ci as int);
        }
        let low = self.collaterals[ci].ratios.lowest();
        let (cr0, vid) = match low {
            Some(p) => p,
            None => {
                return Err(StabError::NoMarkable);
            },
        };
        proof {
            assert(pre.col(collateral).ratios.ids_at(cr0).len() > 0);
            assert(pre.col(collateral).ratios.ids_at(cr0).contains(vid));
            assert(pre.col(collateral).ratios.contains_id(cr0, vid));
            pre.col(collateral).ratios.lemma_entry(0);
        }
        let c = self.get_cdp(vid);
        if !(c.collateral_stab_ratio < self.collaterals[ci].liquidation_collateral_ratio) {
            return Err(StabError::NoMarkable);
        }
        proof {
            assert(pre.cdp_linked(vid - 1));
        }
        let und = match self.pool_to_real(
            c.collateral_amount,
            c.collateral,
            c.is_pool_unit_collateral,
        ) {
            Some(v) => v,
            None => {
                return Err(StabError::Overflow);
            },
        };
        let cr = match dec_div(und, c.minted_stab) {
            Some(v) => v,
            None => {
                return Err(StabError::Overflow);
            },
        };
        proof {
            lemma_div_fp_nonneg(und as int, c.minted_stab as int);
        }
        let delta = match sub_fp(cr, c.collateral_stab_ratio) {
            Some(v) => v,
            None => {
                return Err(StabError::Overflow);
            },
        };
        let adj = match dec_mul(delta, c.minted_stab) {
            Some(v) => v,
            None => {
                return Err(StabError::Overflow);
            },
        };
        let new_col_amt = match add_fp(self.collaterals[ci].collateral_amount, adj) {
            Some(v) => v,
            None => {
                return Err(StabError::Overflow);
            },
        };
        let mut pui: usize = 0;
        if c.is_pool_unit_collateral {
            pui = match self.find_pu(c.collateral) {
                Some(pi) => pi,
                None => {
                    proof {
                        assert(false);
                    }
                    0
                },
            };
            proof {
                pre.lemma_pu_at(pui as int);
            }
        }
        proof {
            lemma_counter_fits(
                pre.markers@.len() as int,
                pre.marker_placing_counter as int,
            );
        }
        let p1 = self.marker_placing_counter + SCALE;
        let m1id = (self.markers.len() as u64) + 1;
        let save_it = cr > self.collaterals[ci].liquidation_collateral_ratio
            && self.bucket_room(ci, cr, cr0, vid);
        if save_it {
            let p2 = self.marker_placing_counter + 2 * SCALE;
            let m2id = m1id + 1;
            let m1 = CdpMarker {
                mark_type: CdpUpdate::Marked,
                time_marked: now,
                marked_id: vid,
                marker_placing: p1,
                used: true,
            };
            let m2 = CdpMarker {
                mark_type: CdpUpdate::Saved,
                time_marked: now,
                marked_id: vid,
                marker_placing: p2,
                used: false,
            };
            self.markers.push(m1);
            self.markers.push(m2);
            self.marker_placing_counter = p2;
            self.collaterals[ci].ratios.remove(cr0, vid);
            proof {
                if self.collaterals@[ci as int].ratios.contains_id(cr, vid) {
                    if cr == cr0 {
                        assert(!self.collaterals@[ci as int].ratios.contains_id(cr0, vid));
                    } else {
                        assert(pre.collaterals@[ci as int].ratios.contains_id(cr, vid));
                        assert(pre.cdp_of(vid).collateral_stab_ratio == cr);
                    }
                    assert(false);
                }
            }
            self.collaterals[ci].ratios.insert(cr, vid);
            self.collaterals[ci].collateral_amount = new_col_amt;
            if cr > self.collaterals[ci].highest_cr {
                self.collaterals[ci].highest_cr = cr;
            }
            let newcdp = Cdp { collateral_stab_ratio: cr, marker_id: m1id, ..c };
            self.set_cdp(vid, newcdp);
            proof {
                assert(self.collaterals@ =~= pre.collaterals@.update(
                    ci as int,
                    self.collaterals@[ci as int],
                ));
                assert(self.markers@ == pre.markers@.push(m1).push(m2));
                if c.is_pool_unit_collateral {
                    assert(self.pool_units@ =~= pre.pool_units@.update(
                        pui as int,
                        self.pool_units@[pui as int],
                    ));
                }
                assert(p2 as int == (pre.markers@.len() + 2) * (SCALE as int))
                    by (nonlinear_arith)
                    requires
                        p2 as int == pre.marker_placing_counter + 2 * (SCALE as int),
                        pre.marker_placing_counter == pre.markers@.len() * (SCALE as int),
                ;
                assert(update_rel(pre, *self, vid, newcdp, ci as int, pui as int, true, cr0, true, cr));
                update_commit_base(pre, *self, vid, newcdp, ci as int, pui as int, true, cr0, true, cr);
                update_commit_index(pre, *self, vid, newcdp, ci as int, pui as int, true, cr0, true, cr);
                update_commit_sums(pre, *self, vid, newcdp, ci as int, pui as int, true, cr0, true, cr);
                lemma_marks_savemark(pre, *self, vid, newcdp, m1, m2);
            }
            Ok(m2id)
        } else {
            let m1 = CdpMarker {
                mark_type: CdpUpdate::Marked,
                time_marked: now,
                marked_id: vid,
                marker_placing: p1,
                used: false,
            };
            self.markers.push(m1);
            self.marker_placing_counter = p1;
            proof {
                assert forall|i: int|
                    0 <= i < pre.marked_cdps.entries@.len()
                        implies pre.marked_cdps.entries@[i].placing < p1 by {
                    let q = pre.marked_cdps.entries@[i].placing;
                    assert(pre.marked_cdps.contains_placing(q));
                    assert(pre.placing_ok(q));
                    let id2 = pre.marked_cdps.id_at(q);
                    assert(pre.marked_cdp_ok(id2 - 1));
                    let mid2 = pre.cdp_of(id2).marker_id;
                    assert(pre.marker_of(mid2).marker_placing == q);
                    assert(0 < q <= pre.marker_placing_counter);
                }
            }
            self.marked_cdps.push_mark(p1, vid);
            let al = self.marked_cdps.entries.len();
            self.marked_cdps_active = al as u64;
            self.collaterals[ci].ratios.remove(cr0, vid);
            self.collaterals[ci].collateral_amount = new_col_amt;
            let newcdp = Cdp {
                collateral_stab_ratio: cr,
                status: CdpStatus::Marked,
                marker_id: m1id,
                ..c
            };
            self.set_cdp(vid, newcdp);
            proof {
                assert(self.collaterals@ =~= pre.collaterals@.update(
                    ci as int,
                    self.collaterals@[ci as int],
                ));
                if c.is_pool_unit_collateral {
                    assert(self.pool_units@ =~= pre.pool_units@.update(
                        pui as int,
                        self.pool_units@[pui as int],
                    ));
                }
                assert(p1 as int == (pre.markers@.len() + 1) * (SCALE as int))
                    by (nonlinear_arith)
                    requires
                        p1 as int == pre.marker_placing_counter + (SCALE as int),
                        pre.marker_placing_counter == pre.markers@.len() * (SCALE as int),
                ;
                assert(update_rel(pre, *self, vid, newcdp, ci as int, pui as int, true, cr0, false, 0));
                update_commit_base(pre, *self, vid, newcdp, ci as int, pui as int, true, cr0, false, 0);
                update_commit_index(pre, *self, vid, newcdp, ci as int, pui as int, true, cr0, false, 0);
                update_commit_sums(pre, *self, vid, newcdp, ci as int, pui as int, true, cr0, false, 0);
                lemma_marks_mark(pre, *self, vid, newcdp, m1);
            }
            Ok(m1id)
        }
    }

    /// The position's collateral value as a fraction of its debt
    /// value, derived from ratio and threshold.
    pub open spec fn spec_cr_pct(self, id: u64) -> int {
        let c = self.cdp_of(id);
        let cr = self.new_cr_of(id, c.collateral_amount as int, c.minted_stab as int);
        div_fp(
            mul_fp(self.col(c.parent_address).mcr as int, cr),
            self.col(c.parent_address).liquidation_collateral_ratio as int,
        )
    }

    /// The liquidation payout split: collateral for the liquidator,
    /// collateral for the treasury, and the fraction of the owed
    /// premium actually received.
    pub open spec fn spec_liq_split(self, id: u64) -> (int, int, int) {
        let a = self.cdp_of(id).collateral_amount as int;
        let p = self.spec_cr_pct(id);
        let f = SCALE as int + self.parameters.liquidation_liquidation_fine;
        let fs = self.parameters.stabilis_liquidation_fine as int;
        if p > f + fs {
            (mul_fp(f, div_fp(a, p)), if fs > 0 {
                mul_fp(fs, div_fp(a, p))
            } else {
                0
            }, f)
        } else if p > f {
            (mul_fp(f, div_fp(a, p)), a - mul_fp(f, div_fp(a, p)), f)
        } else {
            (a, 0, p)
        }
    }

    /// The checks a marker-based liquidation attempt makes before it
    /// decides between seizing and saving, in the order it makes them.
    pub open spec fn spec_liq_checks(
        self,
        marker_id: u64,
        payment: Bucket,
        delay: i64,
        now: i64,
    ) -> bool {
        let m = self.marker_of(marker_id);
        let c = self.cdp_of(m.marked_id);
        &&& payment.resource == self.stab_resource
        &&& !self.parameters.stop_liquidations
        &&& !m.used
        &&& m.mark_type == CdpUpdate::Marked
        &&& payment.amount >= c.minted_stab
        &&& i64::MIN <= delay * 60 <= i64::MAX
        &&& i64::MIN <= m.time_marked + delay * 60 <= i64::MAX
        &&& now >= m.time_marked + delay * 60
        &&& c.status == CdpStatus::Marked
        &&& fits_fp(
            self.spec_underlying(
                c.collateral_amount as int,
                c.collateral,
                c.is_pool_unit_collateral,
            ),
        )
        &&& c.minted_stab != 0
        &&& fits_fp(self.new_cr_of(m.marked_id, c.collateral_amount as int, c.minted_stab as int))
    }

    /// The seizure branch's arithmetic is representable.
    pub open spec fn spec_liq_branch_ok(self, id: u64) -> bool {
        let c = self.cdp_of(id);
        let col = self.col(c.parent_address);
        let f = SCALE as int + self.parameters.liquidation_liquidation_fine;
        let fs = self.parameters.stabilis_liquidation_fine as int;
        let cr = self.new_cr_of(id, c.collateral_amount as int, c.minted_stab as int);
        let p = self.spec_cr_pct(id);
        let a = c.collateral_amount as int;
        let adj = mul_fp(c.collateral_stab_ratio as int, c.minted_stab as int);
        &&& fits_fp(f)
        &&& fits_fp(f + fs)
        &&& fits_fp(mul_fp(col.mcr as int, cr))
        &&& col.liquidation_collateral_ratio != 0
        &&& fits_fp(p)
        &&& (p > f + fs ==> (fits_fp(div_fp(a, p)) && fits_fp(mul_fp(f, div_fp(a, p))) && (fs
            > 0 ==> fits_fp(mul_fp(fs, div_fp(a, p))))))
        &&& ((f < p && p <= f + fs) ==> (fits_fp(div_fp(a, p)) && fits_fp(
            mul_fp(f, div_fp(a, p)),
        )))
        &&& fits_fp(adj)
        &&& fits_fp(col.collateral_amount as int - adj)
        &&& fits_fp(
            (if c.is_pool_unit_collateral {
                self.pu(c.collateral).treasury
            } else {
                col.treasury
            }) as int + self.spec_liq_split(id).1,
        )
    }

    /// The save branch's bucket has room and its arithmetic fits.
    pub open spec fn spec_save_branch_ok(self, id: u64) -> bool {
        let c = self.cdp_of(id);
        let col = self.col(c.parent_address);
        let cr = self.new_cr_of(id, c.collateral_amount as int, c.minted_stab as int);
        let adj = mul_fp(cr - c.collateral_stab_ratio as int, c.minted_stab as int);
        &&& col.ratios.ids_at(cr as i128).len() < self.parameters.max_vector_length
        &&& fits_fp(cr - c.collateral_stab_ratio as int)
        &&& fits_fp(adj)
        &&& fits_fp(col.collateral_amount as int + adj)
    }

    /// All conditions under which a marker-based liquidation attempt
    /// succeeds, by seizing or by saving.
    pub open spec fn spec_try_liq_ok(
        self,
        marker_id: u64,
        payment: Bucket,
        delay: i64,
        now: i64,
    ) -> bool {
        let m = self.marker_of(marker_id);
        let id = m.marked_id;
        let c = self.cdp_of(id);
        let cr = self.new_cr_of(id, c.collateral_amount as int, c.minted_stab as int);
        let lcr = self.col(c.parent_address).liquidation_collateral_ratio;
        &&& self.spec_liq_checks(marker_id, payment, delay, now)
        &&& (if cr < lcr {
            self.spec_liq_branch_ok(id)
        } else {
            self.spec_save_branch_ok(id)
        })
    }

    /// The error a marker-based liquidation attempt reports, the first
    /// failed check in order.
    pub open spec fn spec_try_liq_err(
        self,
        marker_id: u64,
        payment: Bucket,
        delay: i64,
        now: i64,
    ) -> StabError {
        let m = self.marker_of(marker_id);
        let c = self.cdp_of(m.marked_id);
        let cr = self.new_cr_of(m.marked_id, c.collateral_amount as int, c.minted_stab as int);
        let lcr = self.col(c.parent_address).liquidation_collateral_ratio;
        if payment.resource != self.stab_resource {
            StabError::WrongResource
        } else if self.parameters.stop_liquidations {
            StabError::OperationStopped
        } else if m.used || m.mark_type != CdpUpdate::Marked {
            StabError::MarkerUsed
        } else if payment.amount < c.minted_stab {
            StabError::InsufficientPayment
        } else if !(i64::MIN <= delay * 60 <= i64::MAX && i64::MIN <= m.time_marked + delay * 60
            <= i64::MAX) {
            StabError::Overflow
        } else if now < m.time_marked + delay * 60 {
            StabError::NotYetLiquidatable
        } else if c.status != CdpStatus::Marked {
            StabError::NotMarked
        } else if !(fits_fp(
            self.spec_underlying(
                c.collateral_amount as int,
                c.collateral,
                c.is_pool_unit_collateral,
            ),
        ) && c.minted_stab != 0 && fits_fp(cr)) {
            StabError::Overflow
        } else if cr >= lcr && self.col(c.parent_address).ratios.ids_at(cr as i128).len()
            >= self.parameters.max_vector_length {
            StabError::CrBucketFull
        } else {
            StabError::Overflow
        }
    }

    /// What liquidating or saving through a marker leaves behind.
    pub open spec fn liq_post(
        pre: Stabilis,
        post: Stabilis,
        mid: u64,
        payment: Bucket,
        now: i64,
        out: (Bucket, Option<Bucket>, u64),
    ) -> bool {
        let id = pre.marker_of(mid).marked_id;
        let c = pre.cdp_of(id);
        let pa = c.parent_address;
        let cr = pre.new_cr_of(id, c.collateral_amount as int, c.minted_stab as int);
        let lcr = pre.col(pa).liquidation_collateral_ratio;
        if cr < lcr {
            let liq = pre.spec_liq_split(id).0;
            let tr = pre.spec_liq_split(id).1;
            let pr = pre.spec_liq_split(id).2;
            let adj = mul_fp(c.collateral_stab_ratio as int, c.minted_stab as int);
            &&& out.0 == (Bucket { resource: c.collateral, amount: liq as i128 })
            &&& out.1 matches Some(rem) && rem.resource == pre.stab_resource
                && rem.amount as int == payment.amount - c.minted_stab
            &&& out.2 == pre.receipts@.len() + 1
            &&& post.receipts@ == pre.receipts@.push(
                LiquidationReceipt {
                    collateral: c.collateral,
                    stab_paid: c.minted_stab,
                    percentage_owed: (SCALE
                        + pre.parameters.liquidation_liquidation_fine) as i128,
                    percentage_received: pr as i128,
                    cdp_liquidated: id,
                    date_liquidated: now,
                },
            )
            &&& post.cdps@ == pre.cdps@.update(
                id - 1,
                Cdp {
                    status: CdpStatus::Liquidated,
                    minted_stab: 0,
                    collateral_amount: (c.collateral_amount - liq - tr) as i128,
                    ..c
                },
            )
            &&& post.markers@ == pre.markers@.update(
                mid - 1,
                CdpMarker { used: true, ..pre.marker_of(mid) },
            )
            &&& post.marker_placing_counter == pre.marker_placing_counter
            &&& (forall|q: i128|
                post.marked_cdps.contains_placing(q) <==> (pre.marked_cdps.contains_placing(q)
                    && q != pre.marker_of(mid).marker_placing))
            &&& pre.has_col(pa)
            &&& (!c.is_pool_unit_collateral ==> post.collaterals@ == pre.collaterals@.update(
                pre.col_ix(pa),
                CollateralInfo {
                    minted_stab: (pre.col(pa).minted_stab - c.minted_stab) as i128,
                    collateral_amount: (pre.col(pa).collateral_amount as int - adj) as i128,
                    vault: (pre.col(pa).vault - liq - tr) as i128,
                    treasury: (pre.col(pa).treasury + tr) as i128,
                    ..pre.col(pa)
                },
            ) && post.pool_units@ == pre.pool_units@)
            &&& (c.is_pool_unit_collateral ==> post.collaterals@ == pre.collaterals@.update(
                pre.col_ix(pa),
                CollateralInfo {
                    minted_stab: (pre.col(pa).minted_stab - c.minted_stab) as i128,
                    collateral_amount: (pre.col(pa).collateral_amount as int - adj) as i128,
                    ..pre.col(pa)
                },
            ) && pre.has_pu(c.collateral) && post.pool_units@ == pre.pool_units@.update(
                pre.pu_ix(c.collateral),
                PoolUnitInfo {
                    minted_stab: (pre.pu(c.collateral).minted_stab - c.minted_stab) as i128,
                    vault: (pre.pu(c.collateral).vault - liq - tr) as i128,
                    treasury: (pre.pu(c.collateral).treasury + tr) as i128,
                    ..pre.pu(c.collateral)
                },
            ))
            &&& post.circulating_stab == pre.circulating_stab - c.minted_stab
            &&& post.internal_stab_price == pre.internal_stab_price
            &&& post.stab_resource == pre.stab_resource
            &&& post.parameters == pre.parameters
        } else {
            let adj = mul_fp(cr - c.collateral_stab_ratio as int, c.minted_stab as int);
            &&& out.0 == payment
            &&& out.1 is None
            &&& out.2 == pre.markers@.len() + 1
            &&& post.cdps@ == pre.cdps@.update(
                id - 1,
                Cdp {
                    collateral_stab_ratio: cr as i128,
                    status: CdpStatus::Healthy,
                    ..c
                },
            )
            &&& post.markers@ == pre.markers@.update(
                mid - 1,
                CdpMarker { used: true, ..pre.marker_of(mid) },
            ).push(
                CdpMarker {
                    mark_type: CdpUpdate::Saved,
                    time_marked: now,
                    marked_id: id,
                    marker_placing: (pre.marker_placing_counter + SCALE) as i128,
                    used: false,
                },
            )
            &&& post.marker_placing_counter == pre.marker_placing_counter + SCALE
            &&& (forall|q: i128|
                post.marked_cdps.contains_placing(q) <==> (pre.marked_cdps.contains_placing(q)
                    && q != pre.marker_of(mid).marker_placing))
            &&& pre.has_col(pa)
            &&& post.collaterals@.len() == pre.collaterals@.len()
            &&& post.col(pa) == (CollateralInfo {
                collateral_amount: (pre.col(pa).collateral_amount as int + adj) as i128,
                highest_cr: (if cr > pre.col(pa).highest_cr as int {
                    cr as i128
                } else {
                    pre.col(pa).highest_cr
                }),
                ratios: post.col(pa).ratios,
                ..pre.col(pa)
            })
            &&& (forall|ci2: int|
                0 <= ci2 < pre.collaterals@.len() && ci2 != pre.col_ix(pa)
                    ==> post.collaterals@[ci2] == pre.collaterals@[ci2])
            &&& post.col(pa).ratios.ids_at(cr as i128) == pre.col(pa).ratios.ids_at(
                cr as i128,
            ).push(id)
            &&& (forall|k: i128|
                k != cr as i128 ==> post.col(pa).ratios.ids_at(k) == pre.col(pa).ratios.ids_at(
                    k,
                ))
            &&& post.pool_units == pre.pool_units
            &&& post.receipts@ == pre.receipts@
            &&& post.circulating_stab == pre.circulating_stab
            &&& post.internal_stab_price == pre.internal_stab_price
            &&& post.stab_resource == pre.stab_resource
            &&& post.parameters == pre.parameters
        }
    }

    /// Try to liquidate the position a marker names: seize collateral
    /// if it is still below the threshold once the delay has passed,
    /// save it with a fresh save marker otherwise.
    #[verifier::rlimit(100)]
    #[verifier::spinoff_prover]
    fn try_liquidate(&mut self, marker_id: u64, payment: Bucket, delay: i64, now: i64) -> (r:
        Result<(Bucket, Option<Bucket>, u64), StabError>)
        requires
            old(self).wf(),
            old(self).has_marker(marker_id),
            payment.amount >= 0,
            old(self).markers@.len() + 2 < u64::MAX,
            old(self).receipts@.len() + 1 < u64::MAX,
        ensures
            final(self).wf(),
            r is Err ==> *final(self) == *old(self),
            r is Ok <==> old(self).spec_try_liq_ok(marker_id, payment, delay, now),
            r matches Err(e) ==> e == old(self).spec_try_liq_err(marker_id, payment, delay, now),
            r matches Ok(out) ==> Self::liq_post(*old(self), *final(self), marker_id, payment, now, out),
    {
        let ghost pre = *self;
        let marker = self.get_marker(marker_id);
        if payment.resource != self.stab_resource {
            return Err(StabError::WrongResource);
        }
        if self.parameters.stop_liquidations {
            return Err(StabError::OperationStopped);
        }
        if marker.used || !(marker.mark_type == CdpUpdate::Marked) {
            return Err(StabError::MarkerUsed);
        }
        proof {
            assert(pre.marker_ok(marker_id - 1));
        }
        let vid = marker.marked_id;
        let c = self.get_cdp(vid);
        if payment.amount < c.minted_stab {
            return Err(StabError::InsufficientPayment);
        }
        let wait = match delay.checked_mul(60) {
            Some(v) => v,
            None => {
                return Err(StabError::Overflow);
            },
        };
        let ready_at = match marker.time_marked.checked_add(wait) {
            Some(v) => v,
            None => {
                return Err(StabError::Overflow);
            },
        };
        if now < ready_at {
            return Err(StabError::NotYetLiquidatable);
        }
        if !(c.status == CdpStatus::Marked) {
            return Err(StabError::NotMarked);
        }
        proof {
            assert(pre.marked_cdp_ok(vid - 1));
            assert(pre.cdp_linked(vid - 1));
        }
        let ci = match self.find_col(c.parent_address) {
            Some(ci) => ci,
            None => {
                proof {
                    assert(false);
                }
                return Err(StabError::Overflow);
            },
        };
        proof {
            self.lemma_col_at(ci as int);
        }
        let und = match self.pool_to_real(
            c.collateral_amount,
            c.collateral,
            c.is_pool_unit_collateral,
        ) {
            Some(v) => v,
            None => {
                return Err(StabError::Overflow);
            },
        };
        let cr = match dec_div(und, c.minted_stab) {
            Some(v) => v,
            None => {
                return Err(StabError::Overflow);
            },
        };
        proof {
            lemma_div_fp_nonneg(und as int, c.minted_stab as int);
        }
        if cr < self.collaterals[ci].liquidation_collateral_ratio {
            self.liquidate_marked(marker_id, payment, now, vid, ci, cr)
        } else {
            self.save_marked(marker_id, payment, now, vid, ci, cr)
        }
    }

    /// Seize a marked position that stayed below the threshold.
    #[verifier::rlimit(100)]
    #[verifier::spinoff_prover]
    fn liquidate_marked(
        &mut self,
        marker_id: u64,
        payment: Bucket,
        now: i64,
        vid: u64,
        ci: usize,
        cr: i128,
    ) -> (r: Result<(Bucket, Option<Bucket>, u64), StabError>)
        requires
            old(self).wf(),
            old(self).has_marker(marker_id),
            old(self).has_cdp(vid),
            old(self).marker_of(marker_id).marked_id == vid,
            old(self).cdp_of(vid).marker_id == marker_id,
            old(self).cdp_of(vid).status == CdpStatus::Marked,
            payment.amount >= old(self).cdp_of(vid).minted_stab,
            payment.resource == old(self).stab_resource,
            old(self).receipts@.len() + 1 < u64::MAX,
            ci < old(self).collaterals@.len(),
            old(self).collaterals@[ci as int].resource_address == old(self).cdp_of(
                vid,
            ).parent_address,
            cr as int == old(self).new_cr_of(
                vid,
                old(self).cdp_of(vid).collateral_amount as int,
                old(self).cdp_of(vid).minted_stab as int,
            ),
            cr >= 0,
            cr < old(self).collaterals@[ci as int].liquidation_collateral_ratio,
        ensures
            final(self).wf(),
            r is Err ==> *final(self) == *old(self) && r == Err::<
                (Bucket, Option<Bucket>, u64),
                StabError,
            >(StabError::Overflow),
            r is Ok <==> old(self).spec_liq_branch_ok(vid),
            r matches Ok(out) ==> Self::liq_post(*old(self), *final(self), marker_id, payment, now, out),
    {
        let ghost pre = *self;
        let c = self.get_cdp(vid);
        proof {
            assert(pre.marked_cdp_ok(vid - 1));
            assert(pre.cdp_linked(vid - 1));
            self.lemma_col_at(ci as int);
        }
        let mcr = self.collaterals[ci].mcr;
        let lcr = self.collaterals[ci].liquidation_collateral_ratio;
        let f = match add_fp(SCALE, self.parameters.liquidation_liquidation_fine) {
            Some(v) => v,
            None => {
                return Err(StabError::Overflow);
            },
        };
        let fs = self.parameters.stabilis_liquidation_fine;
        let f_fs = match add_fp(f, fs) {
            Some(v) => v,
            None => {
                return Err(StabError::Overflow);
            },
        };
        let num = match dec_mul(mcr, cr) {
            Some(v) => v,
            None => {
                return Err(StabError::Overflow);
            },
        };
        let cr_pct = match dec_div(num, lcr) {
            Some(v) => v,
            None => {
                return Err(StabError::Overflow);
            },
        };
        let mut liq_amt: i128 = c.collateral_amount;
        let mut treas_amt: i128 = 0;
        let mut pct_rec: i128 = cr_pct;
        if cr_pct > f_fs {
            let d = match dec_div(c.collateral_amount, cr_pct) {
                Some(v) => v,
                None => {
                    return Err(StabError::Overflow);
                },
            };
            liq_amt = match dec_mul(f, d) {
                Some(v) => v,
                None => {
                    return Err(StabError::Overflow);
                },
            };
            if fs > 0 {
                treas_amt = match dec_mul(fs, d) {
                    Some(v) => v,
                    None => {
                        return Err(StabError::Overflow);
                    },
                };
            }
            pct_rec = f;
            proof {
                lemma_payout_le(c.collateral_amount as int, cr_pct as int, f as int, fs as int);
            }
        } else if cr_pct > f {
            let d = match dec_div(c.collateral_amount, cr_pct) {
                Some(v) => v,
                None => {
                    return Err(StabError::Overflow);
                },
            };
            liq_amt = match dec_mul(f, d) {
                Some(v) => v,
                None => {
                    return Err(StabError::Overflow);
                },
            };
            treas_amt = c.collateral_amount - liq_amt;
            pct_rec = f;
            proof {
                lemma_payout_le(c.collateral_amount as int, cr_pct as int, f as int, 0);
            }
        }
        let adj = match dec_mul(c.collateral_stab_ratio, c.minted_stab) {
            Some(v) => v,
            None => {
                return Err(StabError::Overflow);
            },
        };
        let new_col_amt = match sub_fp(self.collaterals[ci].collateral_amount, adj) {
            Some(v) => v,
            None => {
                return Err(StabError::Overflow);
            },
        };
        proof {
            lemma_debt_bounds(pre, vid, ci as int);
        }
        let taken = liq_amt + treas_amt;
        let leftover = c.collateral_amount - taken;
        let mut pui: usize = 0;
        if c.is_pool_unit_collateral {
            proof {
                let w = pre.pu_ix(c.collateral);
                assert(self.pool_units@[w].address == c.collateral);
            }
            pui = match self.find_pu(c.collateral) {
                Some(pi) => pi,
                None => {
                    proof {
                        assert(false);
                    }
                    0
                },
            };
            proof {
                pre.lemma_pu_at(pui as int);
                lemma_pu_debt_bounds(pre, vid, pui as int);
            }
            let t = match add_fp(self.pool_units[pui].treasury, treas_amt) {
                Some(v) => v,
                None => {
                    return Err(StabError::Overflow);
                },
            };
            self.pool_units[pui].minted_stab = self.pool_units[pui].minted_stab - c.minted_stab;
            self.pool_units[pui].vault = self.pool_units[pui].vault - taken;
            self.pool_units[pui].treasury = t;
        } else {
            let t = match add_fp(self.collaterals[ci].treasury, treas_amt) {
                Some(v) => v,
                None => {
                    return Err(StabError::Overflow);
                },
            };
            self.collaterals[ci].vault = self.collaterals[ci].vault - taken;
            self.collaterals[ci].treasury = t;
        }
        self.collaterals[ci].minted_stab = self.collaterals[ci].minted_stab - c.minted_stab;
        self.collaterals[ci].collateral_amount = new_col_amt;
        self.circulating_stab = self.circulating_stab - c.minted_stab;
        let marker = self.get_marker(marker_id);
        self.set_marker(marker_id, CdpMarker { used: true, ..marker });
        self.marked_cdps.remove_placing(marker.marker_placing);
        let al = self.marked_cdps.entries.len();
        self.marked_cdps_active = al as u64;
        let receipt = LiquidationReceipt {
            collateral: c.collateral,
            stab_paid: c.minted_stab,
            percentage_owed: f,
            percentage_received: pct_rec,
            cdp_liquidated: vid,
            date_liquidated: now,
        };
        self.receipts.push(receipt);
        let rid = (self.receipts.len()) as u64;
        let newcdp = Cdp {
            status: CdpStatus::Liquidated,
            minted_stab: 0,
            collateral_amount: leftover,
            ..c
        };
        self.set_cdp(vid, newcdp);
        proof {
            assert(self.collaterals@ =~= pre.collaterals@.update(
                ci as int,
                self.collaterals@[ci as int],
            ));
            if c.is_pool_unit_collateral {
                assert(self.pool_units@ =~= pre.pool_units@.update(
                    pui as int,
                    self.pool_units@[pui as int],
                ));
            }
            assert(update_rel(pre, *self, vid, newcdp, ci as int, pui as int, false, 0, false, 0));
            update_commit_base(pre, *self, vid, newcdp, ci as int, pui as int, false, 0, false, 0);
            update_commit_index(pre, *self, vid, newcdp, ci as int, pui as int, false, 0, false, 0);
            update_commit_sums(pre, *self, vid, newcdp, ci as int, pui as int, false, 0, false, 0);
            lemma_marks_unmark(pre, *self, vid, newcdp);
        }
        Ok(
            (
                Bucket { resource: c.collateral, amount: liq_amt },
                Some(
                    Bucket {
                        resource: payment.resource,
                        amount: payment.amount - c.minted_stab,
                    },
                ),
                rid,
            ),
        )
    }

    /// Save a marked position that climbed back above the threshold.
    #[verifier::rlimit(100)]
    #[verifier::spinoff_prover]
    fn save_marked(
        &mut self,
        marker_id: u64,
        payment: Bucket,
        now: i64,
        vid: u64,
        ci: usize,
        cr: i128,
    ) -> (r: Result<(Bucket, Option<Bucket>, u64), StabError>)
        requires
            old(self).wf(),
            old(self).has_marker(marker_id),
            old(self).has_cdp(vid),
            old(self).marker_of(marker_id).marked_id == vid,
            old(self).cdp_of(vid).marker_id == marker_id,
            old(self).cdp_of(vid).status == CdpStatus::Marked,
            old(self).markers@.len() + 2 < u64::MAX,
            cr as int == old(self).new_cr_of(
                vid,
                old(self).cdp_of(vid).collateral_amount as int,
                old(self).cdp_of(vid).minted_stab as int,
            ),
            cr >= 0,
            ci < old(self).collaterals@.len(),
            old(self).collaterals@[ci as int].resource_address == old(self).cdp_of(
                vid,
            ).parent_address,
            cr >= old(self).collaterals@[ci as int].liquidation_collateral_ratio,
        ensures
            final(self).wf(),
            r is Err ==> *final(self) == *old(self),
            r is Ok <==> old(self).spec_save_branch_ok(vid),
            r matches Err(e) ==> e == (if old(self).col(
                old(self).cdp_of(vid).parent_address,
            ).ratios.ids_at(cr).len() >= old(self).parameters.max_vector_length {
                StabError::CrBucketFull
            } else {
                StabError::Overflow
            }),
            r matches Ok(out) ==> Self::liq_post(*old(self), *final(self), marker_id, payment, now, out),
    {
        let ghost pre = *self;
        let c = self.get_cdp(vid);
        proof {
            assert(pre.marked_cdp_ok(vid - 1));
            assert(pre.cdp_linked(vid - 1));
            self.lemma_col_at(ci as int);
        }
        proof {
            if pre.col(c.parent_address).ratios.contains_id(cr, vid) {
                assert(pre.cdp_of(vid).status == CdpStatus::Healthy);
            }
            let s = pre.col(c.parent_address).ratios.ids_at(cr);
            s.index_of_first_ensures(vid);
            assert(s.remove_value(vid) == s);
        }
        let bl = self.collaterals[ci].ratios.bucket_len(cr);
        let bl64 = bl as u64;
        if bl64 >= self.parameters.max_vector_length {
            return Err(StabError::CrBucketFull);
        }
        let delta = match sub_fp(cr, c.collateral_stab_ratio) {
            Some(v) => v,
            None => {
                return Err(StabError::Overflow);
            },
        };
        let adj = match dec_mul(delta, c.minted_stab) {
            Some(v) => v,
            None => {
                return Err(StabError::Overflow);
            },
        };
        let new_col_amt = match add_fp(self.collaterals[ci].collateral_amount, adj) {
            Some(v) => v,
            None => {
                return Err(StabError::Overflow);
            },
        };
        proof {
            lemma_counter_fits(
                pre.markers@.len() as int,
                pre.marker_placing_counter as int,
            );
        }
        let p1 = self.marker_placing_counter + SCALE;
        let m2id = (self.markers.len() as u64) + 1;
        let m2 = CdpMarker {
            mark_type: CdpUpdate::Saved,
            time_marked: now,
            marked_id: vid,
            marker_placing: p1,
            used: false,
        };
        let marker = self.get_marker(marker_id);
        self.set_marker(marker_id, CdpMarker { used: true, ..marker });
        self.markers.push(m2);
        self.marker_placing_counter = p1;
        self.marked_cdps.remove_placing(marker.marker_placing);
        let al = self.marked_cdps.entries.len();
        self.marked_cdps_active = al as u64;
        self.collaterals[ci].ratios.insert(cr, vid);
        self.collaterals[ci].collateral_amount = new_col_amt;
        if cr > self.collaterals[ci].highest_cr {
            self.collaterals[ci].highest_cr = cr;
        }
        let mut pui: usize = 0;
        if c.is_pool_unit_collateral {
            proof {
                let w = pre.pu_ix(c.collateral);
                assert(self.pool_units@[w].address == c.collateral);
            }
            pui = match self.find_pu(c.collateral) {
                Some(pi) => pi,
                None => {
                    proof {
                        assert(false);
                    }
                    0
                },
            };
            proof {
                pre.lemma_pu_at(pui as int);
            }
        }
        let newcdp = Cdp { collateral_stab_ratio: cr, status: CdpStatus::Healthy, ..c };
        self.set_cdp(vid, newcdp);
        proof {
            assert(self.collaterals@ =~= pre.collaterals@.update(
                ci as int,
                self.collaterals@[ci as int],
            ));
            if c.is_pool_unit_collateral {
                assert(self.pool_units@ =~= pre.pool_units@.update(
                    pui as int,
                    self.pool_units@[pui as int],
                ));
            }
            assert(self.markers@ == pre.markers@.update(
                marker_id - 1,
                CdpMarker { used: true, ..pre.marker_of(marker_id) },
            ).push(m2));
            assert(p1 as int == (pre.markers@.len() + 1) * (SCALE as int)) by (nonlinear_arith)
                requires
                    p1 as int == pre.marker_placing_counter + (SCALE as int),
                    pre.marker_placing_counter == pre.markers@.len() * (SCALE as int),
            ;
            assert(update_rel(pre, *self, vid, newcdp, ci as int, pui as int, false, 0, true, cr));
            update_commit_base(pre, *self, vid, newcdp, ci as int, pui as int, false, 0, true, cr);
            update_commit_index(pre, *self, vid, newcdp, ci as int, pui as int, false, 0, true, cr);
            update_commit_sums(pre, *self, vid, newcdp, ci as int, pui as int, false, 0, true, cr);
            lemma_marks_save(pre, *self, vid, newcdp, m2);
        }
        Ok((payment, None, m2id))
    }

    /// Liquidate the position a marker names, after the standard delay.
    pub fn liquidate_position_with_marker(&mut self, marker_id: u64, payment: Bucket, now: i64)
        -> (r: Result<(Bucket, Option<Bucket>, u64), StabError>)
        requires
            old(self).wf(),
            old(self).has_marker(marker_id),
            payment.amount >= 0,
            old(self).markers@.len() + 2 < u64::MAX,
            old(self).receipts@.len() + 1 < u64::MAX,
        ensures
            final(self).wf(),
            r is Err ==> *final(self) == *old(self),
            r is Ok <==> old(self).spec_try_liq_ok(
                marker_id,
                payment,
                old(self).parameters.liquidation_delay,
                now,
            ),
            r matches Err(e) ==> e == old(self).spec_try_liq_err(
                marker_id,
                payment,
                old(self).parameters.liquidation_delay,
                now,
            ),
            r matches Ok(out) ==> Self::liq_post(*old(self), *final(self), marker_id, payment, now, out),
    {
        let delay = self.parameters.liquidation_delay;
        self.try_liquidate(marker_id, payment, delay, now)
    }

    /// The position a no-marker liquidation acts on: the `skip`-th
    /// entry of the marked index in placing order, or the given id.
    pub open spec fn spec_nomark_target(
        pre: Stabilis,
        automatic: bool,
        skip: usize,
        cdp_id: u64,
    ) -> u64 {
        if automatic {
            pre.marked_cdps.entries@[skip as int].cdp_id
        } else {
            cdp_id
        }
    }

    /// Liquidate a marked position without holding its marker, after
    /// the longer grace window; pick it by id, or walk the marked
    /// index oldest first skipping `skip` entries.
    pub fn liquidate_position_without_marker(
        &mut self,
        payment: Bucket,
        automatic: bool,
        skip: usize,
        cdp_id: u64,
    now: i64,
    ) -> (r: Result<(Bucket, Option<Bucket>, u64), StabError>)
        requires
            old(self).wf(),
            payment.amount >= 0,
            !automatic ==> old(self).has_cdp(cdp_id),
            old(self).markers@.len() + 2 < u64::MAX,
            old(self).receipts@.len() + 1 < u64::MAX,
        ensures
            final(self).wf(),
            r is Err ==> *final(self) == *old(self),
            r is Ok <==> {
                let vid = Self::spec_nomark_target(*old(self), automatic, skip, cdp_id);
                &&& (automatic ==> skip < old(self).marked_cdps.entries@.len())
                &&& old(self).cdp_of(vid).status == CdpStatus::Marked
                &&& i64::MIN <= old(self).parameters.liquidation_delay as int + old(
                    self,
                ).parameters.unmarked_delay <= i64::MAX
                &&& old(self).spec_try_liq_ok(
                    old(self).cdp_of(vid).marker_id,
                    payment,
                    (old(self).parameters.liquidation_delay
                        + old(self).parameters.unmarked_delay) as i64,
                    now,
                )
            },
            r matches Err(e) ==> {
                let vid = Self::spec_nomark_target(*old(self), automatic, skip, cdp_id);
                e == if automatic && skip >= old(self).marked_cdps.entries@.len() {
                    StabError::NoMarkable
                } else if old(self).cdp_of(vid).status != CdpStatus::Marked {
                    StabError::NotMarked
                } else if !(i64::MIN <= old(self).parameters.liquidation_delay as int + old(
                    self,
                ).parameters.unmarked_delay <= i64::MAX) {
                    StabError::Overflow
                } else {
                    old(self).spec_try_liq_err(
                        old(self).cdp_of(vid).marker_id,
                        payment,
                        (old(self).parameters.liquidation_delay
                            + old(self).parameters.unmarked_delay) as i64,
                        now,
                    )
                }
            },
            r matches Ok(out) ==> Self::liq_post(
                *old(self),
                *final(self),
                old(self).cdp_of(
                    Self::spec_nomark_target(*old(self), automatic, skip, cdp_id),
                ).marker_id,
                payment,
                now,
                out,
            ),
    {
        let vid: u64;
        if automatic {
            match self.marked_cdps.nth(skip) {
                Some(p) => {
                    vid = p.1;
                    proof {
                        let q = self.marked_cdps.entries@[skip as int].placing;
                        assert(self.marked_cdps.contains_placing(q));
                        assert(self.placing_ok(q));
                        let w = self.marked_cdps.placing_idx(q);
                        if w != skip as int {
                            if w < skip as int {
                                assert(self.marked_cdps.entries@[w].placing
                                    < self.marked_cdps.entries@[skip as int].placing);
                            } else {
                                assert(self.marked_cdps.entries@[skip as int].placing
                                    < self.marked_cdps.entries@[w].placing);
                            }
                        }
                        assert(self.marked_cdps.id_at(q) == vid);
                        assert(self.has_cdp(vid));
                    }
                },
                None => {
                    return Err(StabError::NoMarkable);
                },
            }
        } else {
            vid = cdp_id;
        }
        let c = self.get_cdp(vid);
        if !(c.status == CdpStatus::Marked) {
            return Err(StabError::NotMarked);
        }
        proof {
            assert(self.marked_cdp_ok(vid - 1));
        }
        let mid = c.marker_id;
        let d1 = self.parameters.liquidation_delay;
        let d2 = self.parameters.unmarked_delay;
        let delay = match d1.checked_add(d2) {
            Some(v) => v,
            None => {
                return Err(StabError::Overflow);
            },
        };
        proof {
            assert(vid == Self::spec_nomark_target(*old(self), automatic, skip, cdp_id));
        }
        let out = self.try_liquidate(mid, payment, delay, now);
        proof {
            if out is Ok {
                assert(Self::liq_post(*old(self), *self, mid, payment, now, out->Ok_0));
            }
        }
        out
    }

    /// The checks `force_liquidate` makes before the whole-loan rule,
    /// in order: the operation is allowed, the payment is the
    /// stablecoin, the collateral is known and indexed, and the
    /// arithmetic up to `cr_pct` is representable.
    pub open spec fn spec_force_ready(self, collateral: u64, payment: Bucket) -> bool {
        let t = self.col(collateral).ratios;
        let id = t.entries@[0].ids@[0];
        let c = self.cdp_of(id);
        let cr = self.new_cr_of(id, c.collateral_amount as int, c.minted_stab as int);
        &&& !self.parameters.stop_force_liquidate
        &&& payment.resource == self.stab_resource
        &&& self.has_col(collateral)
        &&& t.entries@.len() > 0
        &&& fits_fp(self.spec_underlying(
            c.collateral_amount as int,
            c.collateral,
            c.is_pool_unit_collateral,
        ))
        &&& c.minted_stab != 0
        &&& fits_fp(cr)
        &&& fits_fp(mul_fp(self.col(collateral).mcr as int, cr))
        &&& self.col(collateral).liquidation_collateral_ratio != 0
        &&& fits_fp(self.spec_cr_pct(id))
    }

    /// The fraction of its debt a force-liquidation covers.
    pub open spec fn spec_force_pct(self, collateral: u64, payment: Bucket) -> int {
        let id = self.col(collateral).ratios.entries@[0].ids@[0];
        let c = self.cdp_of(id);
        if payment.amount >= c.minted_stab {
            SCALE as int
        } else {
            div_fp(payment.amount as int, c.minted_stab as int)
        }
    }

    /// The wrapped collateral a force-liquidation takes: the covered
    /// fraction, scaled by the taker's percentage and the position's
    /// backing, clamped into what the position holds.
    pub open spec fn spec_force_take(self, collateral: u64, payment: Bucket, pct_take: i128) -> int {
        let id = self.col(collateral).ratios.entries@[0].ids@[0];
        let c = self.cdp_of(id);
        let p = self.spec_cr_pct(id);
        let t0 = div_fp(
            mul_fp(
                mul_fp(c.collateral_amount as int, self.spec_force_pct(collateral, payment)),
                pct_take as int,
            ),
            p,
        );
        if t0 > c.collateral_amount as int {
            c.collateral_amount as int
        } else if t0 < 0 {
            0int
        } else {
            t0
        }
    }

    /// All conditions under which `force_liquidate` succeeds.
    pub open spec fn spec_force_liq_ok(
        self,
        collateral: u64,
        payment: Bucket,
        pct_take: i128,
        anm: bool,
    ) -> bool {
        let id = self.col(collateral).ratios.entries@[0].ids@[0];
        let c = self.cdp_of(id);
        let cr = self.new_cr_of(id, c.collateral_amount as int, c.minted_stab as int);
        let lcr = self.col(collateral).liquidation_collateral_ratio as int;
        let p = self.spec_cr_pct(id);
        let pct = self.spec_force_pct(collateral, payment);
        let part = mul_fp(c.collateral_amount as int, pct);
        let part2 = mul_fp(part, pct_take as int);
        let take = self.spec_force_take(collateral, payment, pct_take);
        let full = payment.amount >= c.minted_stab;
        &&& self.spec_force_ready(collateral, payment)
        &&& (anm ==> cr > lcr)
        &&& (p > SCALE || full)
        &&& (!full ==> fits_fp(div_fp(payment.amount as int, c.minted_stab as int)))
        &&& fits_fp(part)
        &&& fits_fp(part2)
        &&& p != 0
        &&& fits_fp(div_fp(part2, p))
        &&& (full ==> (fits_fp(mul_fp(c.collateral_stab_ratio as int, c.minted_stab as int))
            && fits_fp(
            self.col(collateral).collateral_amount as int - mul_fp(
                c.collateral_stab_ratio as int,
                c.minted_stab as int,
            ),
        )))
        &&& (!full ==> self.reindex_ok(
            id,
            c.collateral_amount as int - take,
            c.minted_stab as int - payment.amount,
            self.new_cr_of(
                id,
                c.collateral_amount as int - take,
                c.minted_stab as int - payment.amount,
            ),
            i128::MIN as int,
        ))
    }

    /// Seize collateral from the riskiest position of a collateral
    /// without the marking protocol; below full backing the entire
    /// loan must be repaid at once.
    #[verifier::rlimit(100)]
    #[verifier::spinoff_prover]
    pub fn force_liquidate(
        &mut self,
        collateral: u64,
        payment: Bucket,
        percentage_to_take: i128,
        assert_non_markable: bool,
    ) -> (r: Result<(Bucket, Bucket), StabError>)
        requires
            old(self).wf(),
            payment.amount >= 0,
            percentage_to_take >= 0,
        ensures
            final(self).wf(),
            r is Err ==> *final(self) == *old(self),
            r == Err::<(Bucket, Bucket), StabError>(StabError::EntireLoanRequired) <==> {
                let t = old(self).col(collateral).ratios;
                let id = t.entries@[0].ids@[0];
                let c = old(self).cdp_of(id);
                let cr = old(self).new_cr_of(
                    id,
                    c.collateral_amount as int,
                    c.minted_stab as int,
                );
                &&& old(self).spec_force_ready(collateral, payment)
                &&& (assert_non_markable ==> cr > old(self).col(
                    collateral,
                ).liquidation_collateral_ratio as int)
                &&& old(self).spec_cr_pct(id) <= SCALE
                &&& payment.amount < c.minted_stab
            },
            r is Ok <==> old(self).spec_force_liq_ok(
                collateral,
                payment,
                percentage_to_take,
                assert_non_markable,
            ),
            r matches Ok(out) ==> {
                let t = old(self).col(collateral).ratios;
                let id = t.entries@[0].ids@[0];
                let c = old(self).cdp_of(id);
                let take = old(self).spec_force_take(collateral, payment, percentage_to_take);
                let full = payment.amount >= c.minted_stab;
                &&& out.0 == (Bucket { resource: c.collateral, amount: take as i128 })
                &&& out.0.amount >= 0
                &&& out.0.amount <= c.collateral_amount
                &&& out.1.resource == payment.resource
                &&& (full ==> {
                    &&& out.1.amount == payment.amount - c.minted_stab
                    &&& final(self).cdps@ == old(self).cdps@.update(
                        id - 1,
                        Cdp {
                            status: CdpStatus::ForceLiquidated,
                            minted_stab: 0,
                            collateral_amount: (c.collateral_amount as int - take) as i128,
                            ..c
                        },
                    )
                    &&& final(self).circulating_stab == old(self).circulating_stab
                        - c.minted_stab
                    &&& final(self).col(collateral).minted_stab == old(self).col(
                        collateral,
                    ).minted_stab - c.minted_stab
                })
                &&& (!full ==> {
                    &&& out.1.amount == 0
                    &&& final(self).cdps@ == old(self).cdps@.update(
                        id - 1,
                        Cdp {
                            collateral_amount: (c.collateral_amount as int - take) as i128,
                            minted_stab: (c.minted_stab - payment.amount) as i128,
                            collateral_stab_ratio: (old(self).new_cr_of(
                                id,
                                c.collateral_amount as int - take,
                                c.minted_stab as int - payment.amount,
                            )) as i128,
                            ..c
                        },
                    )
                    &&& final(self).circulating_stab == old(self).circulating_stab
                        - payment.amount
                    &&& final(self).col(collateral).minted_stab == old(self).col(
                        collateral,
                    ).minted_stab - payment.amount
                })
                &&& final(self).receipts@ == old(self).receipts@
                &&& final(self).markers@ == old(self).markers@
                &&& final(self).internal_stab_price == old(self).internal_stab_price
                &&& final(self).parameters == old(self).parameters
            },
    {
        let ghost pre = *self;
        if self.parameters.stop_force_liquidate {
            return Err(StabError::OperationStopped);
        }
        if payment.resource != self.stab_resource {
            return Err(StabError::WrongResource);
        }
        let ci = match self.find_col(collateral) {
            Some(ci) => ci,
            None => {
                return Err(StabError::UnknownCollateral);
            },
        };
        proof {
            self.lemma_col_at(ci as int);
        }
        let low = self.collaterals[ci].ratios.lowest();
        let (cr0, vid) = match low {
            Some(p) => p,
            None => {
                return Err(StabError::NoMarkable);
            },
        };
        proof {
            assert(pre.col(collateral).ratios.ids_at(cr0).len() > 0);
            assert(pre.col(collateral).ratios.ids_at(cr0).contains(vid));
            assert(pre.col(collateral).ratios.contains_id(cr0, vid));
            pre.col(collateral).ratios.lemma_entry(0);
        }
        let c = self.get_cdp(vid);
        proof {
            assert(pre.cdp_linked(vid - 1));
        }
        let und = match self.pool_to_real(
            c.collateral_amount,
            c.collateral,
            c.is_pool_unit_collateral,
        ) {
            Some(v) => v,
            None => {
                return Err(StabError::Overflow);
            },
        };
        let cr = match dec_div(und, c.minted_stab) {
            Some(v) => v,
            None => {
                return Err(StabError::Overflow);
            },
        };
        proof {
            lemma_div_fp_nonneg(und as int, c.minted_stab as int);
        }
        let lcr = self.collaterals[ci].liquidation_collateral_ratio;
        let num = match dec_mul(self.collaterals[ci].mcr, cr) {
            Some(v) => v,
            None => {
                return Err(StabError::Overflow);
            },
        };
        let cr_pct = match dec_div(num, lcr) {
            Some(v) => v,
            None => {
                return Err(StabError::Overflow);
            },
        };
        if assert_non_markable && !(cr > lcr) {
            return Err(StabError::NoMarkable);
        }
        let full = payment.amount >= c.minted_stab;
        if !(cr_pct > SCALE) && !full {
            return Err(StabError::EntireLoanRequired);
        }
        let pct = if full {
            SCALE
        } else {
            match dec_div(payment.amount, c.minted_stab) {
                Some(v) => v,
                None => {
                    return Err(StabError::Overflow);
                },
            }
        };
        let payment_amount = if full {
            c.minted_stab
        } else {
            payment.amount
        };
        let new_stab = c.minted_stab - payment_amount;
        let part = match dec_mul(c.collateral_amount, pct) {
            Some(v) => v,
            None => {
                return Err(StabError::Overflow);
            },
        };
        let part2 = match dec_mul(part, percentage_to_take) {
            Some(v) => v,
            None => {
                return Err(StabError::Overflow);
            },
        };
        let take0 = match dec_div(part2, cr_pct) {
            Some(v) => v,
            None => {
                return Err(StabError::Overflow);
            },
        };
        let take = if take0 > c.collateral_amount {
            c.collateral_amount
        } else if take0 < 0 {
            0
        } else {
            take0
        };
        let new_amount = c.collateral_amount - take;
        if full {
            // the whole loan goes: the position ends force-liquidated
            let adj = match dec_mul(c.collateral_stab_ratio, c.minted_stab) {
                Some(v) => v,
                None => {
                    return Err(StabError::Overflow);
                },
            };
            let new_col_amt = match sub_fp(self.collaterals[ci].collateral_amount, adj) {
                Some(v) => v,
                None => {
                    return Err(StabError::Overflow);
                },
            };
            proof {
                lemma_debt_bounds(pre, vid, ci as int);
                assert(pre.cdps@[vid - 1].status == CdpStatus::Healthy);
                assert(pre.col(c.parent_address).ratios.contains_id(
                    c.collateral_stab_ratio,
                    vid,
                ));
            }
            self.collaterals[ci].ratios.remove(c.collateral_stab_ratio, vid);
            self.collaterals[ci].minted_stab = self.collaterals[ci].minted_stab
                - c.minted_stab;
            self.collaterals[ci].collateral_amount = new_col_amt;
            self.circulating_stab = self.circulating_stab - c.minted_stab;
            let mut pui: usize = 0;
            if c.is_pool_unit_collateral {
                proof {
                    let w = pre.pu_ix(c.collateral);
                    assert(self.pool_units@[w].address == c.collateral);
                }
                pui = match self.find_pu(c.collateral) {
                    Some(pi) => pi,
                    None => {
                        proof {
                            assert(false);
                        }
                        0
                    },
                };
                proof {
                    pre.lemma_pu_at(pui as int);
                    lemma_pu_debt_bounds(pre, vid, pui as int);
                }
                self.pool_units[pui].minted_stab = self.pool_units[pui].minted_stab
                    - c.minted_stab;
                self.pool_units[pui].vault = self.pool_units[pui].vault - take;
            } else {
                self.collaterals[ci].vault = self.collaterals[ci].vault - take;
            }
            let newcdp = Cdp {
                status: CdpStatus::ForceLiquidated,
                minted_stab: 0,
                collateral_amount: new_amount,
                ..c
            };
            self.set_cdp(vid, newcdp);
            proof {
                assert(self.collaterals@ =~= pre.collaterals@.update(
                    ci as int,
                    self.collaterals@[ci as int],
                ));
                if c.is_pool_unit_collateral {
                    assert(self.pool_units@ =~= pre.pool_units@.update(
                        pui as int,
                        self.pool_units@[pui as int],
                    ));
                }
                assert(update_rel(
                    pre,
                    *self,
                    vid,
                    newcdp,
                    ci as int,
                    pui as int,
                    true,
                    c.collateral_stab_ratio,
                    false,
                    0,
                ));
                update_commit_wf(
                    pre,
                    *self,
                    vid,
                    newcdp,
                    ci as int,
                    pui as int,
                    true,
                    c.collateral_stab_ratio,
                    false,
                    0,
                );
            }
            Ok(
                (
                    Bucket { resource: c.collateral, amount: take },
                    Bucket {
                        resource: payment.resource,
                        amount: payment.amount - c.minted_stab,
                    },
                ),
            )
        } else {
            // partial: the position keeps its remaining debt and ratio
            match self.reindex_position(vid, new_amount, new_stab, take, 0, i128::MIN) {
                Ok(_) => Ok(
                    (
                        Bucket { resource: c.collateral, amount: take },
                        Bucket { resource: payment.resource, amount: 0 },
                    ),
                ),
                Err(e) => Err(e),
            }
        }
    }

    /// Register a pool-unit collateral wrapping a parent resource.
    #[verifier::rlimit(100)]
    #[verifier::spinoff_prover]
    pub fn add_pool_collateral(
        &mut self,
        address: u64,
        parent_address: u64,
        lsu: bool,
        initial_acceptance: bool,
    ) -> (r: Result<(), StabError>)
        requires
            old(self).wf(),
        ensures
            final(self).wf(),
            r is Err ==> *final(self) == *old(self) && r == Err::<(), StabError>(
                StabError::AlreadyRegistered,
            ),
            r is Err <==> old(self).has_pu(address),
            r is Ok ==> {
                &&& final(self).pool_units@.len() == old(self).pool_units@.len() + 1
                &&& forall|i: int|
                    0 <= i < old(self).pool_units@.len() ==> final(self).pool_units@[i] == old(
                        self,
                    ).pool_units@[i]
                &&& final(self).has_pu(address)
                &&& final(self).pu_ix(address) == old(self).pool_units@.len()
                &&& final(self).pu(address).parent_address == parent_address
                &&& final(self).pu(address).accepted == initial_acceptance
                &&& final(self).pu(address).redemption_rate == SCALE
                &&& final(self).pu(address).minted_stab == 0
                &&& final(self).pu(address).vault == 0
                &&& final(self).pu(address).treasury == 0
                &&& final(self).pu(address).max_pool_share == SCALE
                &&& final(self).pu(address).lsu == lsu
                &&& final(self).pu(address).address == address
                &&& final(self).cdps@ == old(self).cdps@
                &&& final(self).collaterals == old(self).collaterals
                &&& final(self).markers == old(self).markers
                &&& final(self).receipts == old(self).receipts
                &&& final(self).marked_cdps == old(self).marked_cdps
                &&& final(self).circulating_stab == old(self).circulating_stab
                &&& final(self).internal_stab_price == old(self).internal_stab_price
                &&& final(self).parameters == old(self).parameters
            },
    {
        let ghost pre = *self;
        if self.find_pu(address).is_some() {
            return Err(StabError::AlreadyRegistered);
        }
        let info = PoolUnitInfo {
            vault: 0,
            treasury: 0,
            lsu,
            redemption_rate: SCALE,
            parent_address,
            address,
            accepted: initial_acceptance,
            minted_stab: 0,
            max_pool_share: SCALE,
        };
        self.pool_units.push(info);
        proof {
            lemma_pu_push(pre, *self, info);
            lemma_same_cols(pre, *self);
            assert(self.wf_base()) by {
                assert forall|i: int| 0 <= i < self.cdps@.len() implies #[trigger] self.cdp_linked(
                    i,
                ) by {
                    assert(pre.cdp_linked(i));
                    let c = pre.cdps@[i];
                    if c.is_pool_unit_collateral {
                        assert(pre.has_pu(c.collateral));
                        assert(self.pu(c.collateral) == pre.pu(c.collateral));
                    }
                }
            }
            assert(self.wf_index()) by {
                assert forall|ci: int, cr: i128, id: u64|
                    0 <= ci < self.collaterals@.len()
                        && (#[trigger] self.collaterals@[ci].ratios.contains_id(cr, id))
                        implies self.has_cdp(id) && self.cdp_of(id).status == CdpStatus::Healthy
                    && self.cdp_of(id).parent_address == self.collaterals@[ci].resource_address
                    && self.cdp_of(id).collateral_stab_ratio == cr by {
                    assert(pre.collaterals@[ci].ratios.contains_id(cr, id));
                }
                assert forall|i: int|
                    0 <= i < self.cdps@.len() && (#[trigger] self.cdps@[i]).status
                        == CdpStatus::Healthy implies self.has_col(self.cdps@[i].parent_address)
                    && self.col(self.cdps@[i].parent_address).ratios.contains_id(
                    self.cdps@[i].collateral_stab_ratio,
                    (i + 1) as u64,
                ) by {
                    assert(pre.has_col(pre.cdps@[i].parent_address));
                }
            }
            lemma_marks_same(pre, *self);
            assert(self.wf_sums()) by {
                lemma_sum_pu_zero(self.cdps@, pre, address);
                lemma_sum_map_push(pre.pool_units@, info, |p: PoolUnitInfo| p.minted_stab as int);
                assert forall|i: int|
                    0 <= i < self.pool_units@.len()
                        implies (#[trigger] self.pool_units@[i]).minted_stab as int == sum_map(
                    self.cdps@,
                    pu_debt_w(self.pool_units@[i].address),
                ) && self.pool_units@[i].vault as int == sum_map(
                    self.cdps@,
                    pu_vault_w(self.pool_units@[i].address),
                ) by {
                    if i < pre.pool_units@.len() {
                        assert(self.pool_units@[i] == pre.pool_units@[i]);
                    }
                }
            }
        }
        Ok(())
    }

    /// Snapshot a pool unit's redemption rate, as the external
    /// redemption view reported it.
    pub fn set_redemption_rate(&mut self, address: u64, rate: i128) -> (r: Result<
        (),
        StabError,
    >)
        requires
            old(self).wf(),
            rate >= 0,
        ensures
            final(self).wf(),
            r is Err ==> *final(self) == *old(self) && r == Err::<(), StabError>(
                StabError::UnknownCollateral,
            ),
            r is Ok <==> old(self).has_pu(address),
            r is Ok ==> final(self).pu(address).redemption_rate == rate && final(self).cdps@
                == old(self).cdps@,
    {
        let ghost pre = *self;
        let pi = match self.find_pu(address) {
            Some(pi) => pi,
            None => {
                return Err(StabError::UnknownCollateral);
            },
        };
        proof {
            self.lemma_pu_at(pi as int);
        }
        self.pool_units[pi].redemption_rate = rate;
        proof {
            assert(self.pool_units@ =~= pre.pool_units@.update(
                pi as int,
                self.pool_units@[pi as int],
            ));
            lemma_wf_pu_fields(pre, *self, pi as int);
            lemma_pu_update(pre, *self, pi as int, self.pool_units@[pi as int]);
        }
        Ok(())
    }

    /// Re-derive a collateral's liquidation threshold from a fresh
    /// market price.
    pub fn change_collateral_price(&mut self, collateral: u64, new_price: i128) -> (r: Result<
        (),
        StabError,
    >)
        requires
            old(self).wf(),
            new_price > 0,
        ensures
            final(self).wf(),
            r is Err ==> *final(self) == *old(self),
            r is Ok <==> (old(self).has_col(collateral) && fits_fp(
                div_fp(old(self).internal_stab_price as int, new_price as int),
            ) && fits_fp(
                mul_fp(
                    old(self).col(collateral).mcr as int,
                    div_fp(old(self).internal_stab_price as int, new_price as int),
                ),
            )),
            r matches Err(e) ==> e == (if !old(self).has_col(collateral) {
                StabError::UnknownCollateral
            } else {
                StabError::Overflow
            }),
            r is Ok ==> {
                &&& final(self).collaterals@ == old(self).collaterals@.update(
                    old(self).col_ix(collateral),
                    CollateralInfo {
                        usd_price: new_price,
                        liquidation_collateral_ratio: (mul_fp(
                            old(self).col(collateral).mcr as int,
                            div_fp(old(self).internal_stab_price as int, new_price as int),
                        )) as i128,
                        ..old(self).col(collateral)
                    },
                )
                &&& final(self).cdps@ == old(self).cdps@
                &&& final(self).pool_units == old(self).pool_units
                &&& final(self).markers == old(self).markers
                &&& final(self).receipts == old(self).receipts
                &&& final(self).marked_cdps == old(self).marked_cdps
                &&& final(self).circulating_stab == old(self).circulating_stab
                &&& final(self).internal_stab_price == old(self).internal_stab_price
                &&& final(self).parameters == old(self).parameters
            },
    {
        let ghost pre = *self;
        let ci = match self.find_col(collateral) {
            Some(ci) => ci,
            None => {
                return Err(StabError::UnknownCollateral);
            },
        };
        proof {
            self.lemma_col_at(ci as int);
        }
        let ratio_part = match dec_div(self.internal_stab_price, new_price) {
            Some(v) => v,
            None => {
                return Err(StabError::Overflow);
            },
        };
        let lcr = match dec_mul(self.collaterals[ci].mcr, ratio_part) {
            Some(v) => v,
            None => {
                return Err(StabError::Overflow);
            },
        };
        self.collaterals[ci].usd_price = new_price;
        self.collaterals[ci].liquidation_collateral_ratio = lcr;
        proof {
            assert(self.collaterals@ =~= pre.collaterals@.update(
                ci as int,
                self.collaterals@[ci as int],
            ));
            lemma_wf_col_fields(pre, *self, ci as int);
            lemma_col_update(pre, *self, ci as int, self.collaterals@[ci as int]);
        }
        Ok(())
    }

    /// Change which positions may be opened against a collateral and
    /// how much of the supply it may back.
    pub fn edit_collateral(
        &mut self,
        address: u64,
        new_mcr: i128,
        new_acceptance: bool,
        new_max_share: i128,
    ) -> (r: Result<(), StabError>)
        requires
            old(self).wf(),
        ensures
            final(self).wf(),
            r is Err ==> *final(self) == *old(self) && r == Err::<(), StabError>(
                StabError::UnknownCollateral,
            ),
            r is Ok <==> old(self).has_col(address),
            r is Ok ==> final(self).col(address).mcr == new_mcr && final(self).col(
                address,
            ).accepted == new_acceptance && final(self).col(address).max_stab_share
                == new_max_share,
    {
        let ghost pre = *self;
        let ci = match self.find_col(address) {
            Some(ci) => ci,
            None => {
                return Err(StabError::UnknownCollateral);
            },
        };
        proof {
            self.lemma_col_at(ci as int);
        }
        self.collaterals[ci].mcr = new_mcr;
        self.collaterals[ci].accepted = new_acceptance;
        self.collaterals[ci].max_stab_share = new_max_share;
        proof {
            assert(self.collaterals@ =~= pre.collaterals@.update(
                ci as int,
                self.collaterals@[ci as int],
            ));
            lemma_wf_col_fields(pre, *self, ci as int);
            lemma_col_update(pre, *self, ci as int, self.collaterals@[ci as int]);
        }
        Ok(())
    }

    /// Change a pool unit's acceptance and share cap.
    pub fn edit_pool_collateral(
        &mut self,
        address: u64,
        new_acceptance: bool,
        new_max_share: i128,
    ) -> (r: Result<(), StabError>)
        requires
            old(self).wf(),
        ensures
            final(self).wf(),
            r is Err ==> *final(self) == *old(self) && r == Err::<(), StabError>(
                StabError::UnknownCollateral,
            ),
            r is Ok <==> old(self).has_pu(address),
            r is Ok ==> final(self).pu(address).accepted == new_acceptance && final(self).pu(
                address,
            ).max_pool_share == new_max_share,
    {
        let ghost pre = *self;
        let pi = match self.find_pu(address) {
            Some(pi) => pi,
            None => {
                return Err(StabError::UnknownCollateral);
            },
        };
        proof {
            self.lemma_pu_at(pi as int);
        }
        self.pool_units[pi].accepted = new_acceptance;
        self.pool_units[pi].max_pool_share = new_max_share;
        proof {
            assert(self.pool_units@ =~= pre.pool_units@.update(
                pi as int,
                self.pool_units@[pi as int],
            ));
            lemma_wf_pu_fields(pre, *self, pi as int);
            lemma_pu_update(pre, *self, pi as int, self.pool_units@[pi as int]);
        }
        Ok(())
    }

    /// Withdraw protocol fees from a collateral's treasury; the
    /// fallback forces the plain-collateral treasury when a resource
    /// is registered both ways.
    pub fn empty_collateral_treasury(
        &mut self,
        amount: i128,
        collateral: u64,
        error_fallback: bool,
    ) -> (r: Result<Bucket, StabError>)
        requires
            old(self).wf(),
            amount >= 0,
        ensures
            final(self).wf(),
            r is Err ==> *final(self) == *old(self),
            r is Ok <==> (if !error_fallback && old(self).has_pu(collateral) {
                amount <= old(self).pu(collateral).treasury
            } else {
                old(self).has_col(collateral) && amount <= old(self).col(collateral).treasury
            }),
            r matches Err(e) ==> e == (if (error_fallback || !old(self).has_pu(collateral))
                && !old(self).has_col(collateral) {
                StabError::UnknownCollateral
            } else {
                StabError::InsufficientTreasury
            }),
            r matches Ok(out) ==> {
                &&& out == (Bucket { resource: collateral, amount: amount })
                &&& (if !error_fallback && old(self).has_pu(collateral) {
                    final(self).pool_units@ == old(self).pool_units@.update(
                        old(self).pu_ix(collateral),
                        PoolUnitInfo {
                            treasury: (old(self).pu(collateral).treasury - amount) as i128,
                            ..old(self).pu(collateral)
                        },
                    ) && final(self).collaterals == old(self).collaterals
                } else {
                    final(self).collaterals@ == old(self).collaterals@.update(
                        old(self).col_ix(collateral),
                        CollateralInfo {
                            treasury: (old(self).col(collateral).treasury - amount) as i128,
                            ..old(self).col(collateral)
                        },
                    ) && final(self).pool_units == old(self).pool_units
                })
                &&& final(self).cdps == old(self).cdps
                &&& final(self).markers == old(self).markers
                &&& final(self).receipts == old(self).receipts
                &&& final(self).marked_cdps == old(self).marked_cdps
                &&& final(self).circulating_stab == old(self).circulating_stab
                &&& final(self).internal_stab_price == old(self).internal_stab_price
                &&& final(self).parameters == old(self).parameters
            },
    {
        let ghost pre = *self;
        let use_pool = !error_fallback && self.find_pu(collateral).is_some();
        if use_pool {
            let pi = match self.find_pu(collateral) {
                Some(pi) => pi,
                None => {
                    proof {
                        assert(false);
                    }
                    return Err(StabError::UnknownCollateral);
                },
            };
            proof {
                self.lemma_pu_at(pi as int);
            }
            if amount > self.pool_units[pi].treasury {
                return Err(StabError::InsufficientTreasury);
            }
            self.pool_units[pi].treasury = self.pool_units[pi].treasury - amount;
            proof {
                assert(self.pool_units@ =~= pre.pool_units@.update(
                    pi as int,
                    self.pool_units@[pi as int],
                ));
                lemma_wf_pu_fields(pre, *self, pi as int);
            }
            Ok(Bucket { resource: collateral, amount })
        } else {
            let ci = match self.find_col(collateral) {
                Some(ci) => ci,
                None => {
                    return Err(StabError::UnknownCollateral);
                },
            };
            proof {
                self.lemma_col_at(ci as int);
            }
            if amount > self.collaterals[ci].treasury {
                return Err(StabError::InsufficientTreasury);
            }
            self.collaterals[ci].treasury = self.collaterals[ci].treasury - amount;
            proof {
                assert(self.collaterals@ =~= pre.collaterals@.update(
                    ci as int,
                    self.collaterals@[ci as int],
                ));
                lemma_wf_col_fields(pre, *self, ci as int);
            }
            Ok(Bucket { resource: collateral, amount })
        }
    }

    /// Set the internal target price directly.
    pub fn change_internal_price(&mut self, new_price: i128)
        requires
            old(self).wf(),
        ensures
            final(self).wf(),
            final(self).internal_stab_price == new_price,
            final(self).cdps@ == old(self).cdps@,
            final(self).circulating_stab == old(self).circulating_stab,
            final(self).collaterals == old(self).collaterals,
            final(self).pool_units == old(self).pool_units,
            final(self).markers == old(self).markers,
            final(self).receipts == old(self).receipts,
            final(self).marked_cdps == old(self).marked_cdps,
            final(self).marked_cdps_active == old(self).marked_cdps_active,
            final(self).marker_placing_counter == old(self).marker_placing_counter,
            final(self).stab_resource == old(self).stab_resource,
            final(self).parameters == old(self).parameters,
    {
        let ghost pre = *self;
        self.internal_stab_price = new_price;
        proof {
            lemma_wf_same_core(pre, *self);
        }
    }

    pub fn return_internal_price(&self) -> (r: i128)
        ensures
            r == self.internal_stab_price,
    {
        self.internal_stab_price
    }

    /// Mint unbacked stablecoins under controller authority; the
    /// circulating total tracks position-backed supply only.
    pub fn free_stab(&mut self, amount: i128) -> (r: Bucket)
        requires
            old(self).wf(),
            amount >= 0,
        ensures
            final(self).wf(),
            *final(self) == *old(self),
            r == (Bucket { resource: old(self).stab_resource, amount: amount }),
    {
        Bucket { resource: self.stab_resource, amount }
    }

    /// Destroy a bucket of stablecoins.
    pub fn burn_stab(&self, bucket: Bucket) -> (r: Result<(), StabError>)
        ensures
            r is Ok <==> bucket.resource == self.stab_resource,
            r is Err ==> r == Err::<(), StabError>(StabError::WrongResource),
    {
        if bucket.resource != self.stab_resource {
            return Err(StabError::WrongResource);
        }
        Ok(())
    }

    /// Destroy a consumed marker receipt.
    pub fn burn_marker(&self, marker_id: u64) -> (r: Result<(), StabError>)
        requires
            self.has_marker(marker_id),
        ensures
            r is Ok <==> self.marker_of(marker_id).used,
            r is Err ==> r == Err::<(), StabError>(StabError::MarkerUsed),
    {
        let m = self.get_marker(marker_id);
        if !m.used {
            return Err(StabError::MarkerUsed);
        }
        Ok(())
    }

    /// Destroy the receipt of a settled position.
    pub fn burn_loan_receipt(&self, receipt_id: u64) -> (r: Result<(), StabError>)
        requires
            self.has_cdp(receipt_id),
        ensures
            r is Ok <==> {
                let c = self.cdp_of(receipt_id);
                &&& (c.status == CdpStatus::Liquidated || c.status == CdpStatus::ForceLiquidated
                    || c.status == CdpStatus::Closed)
                &&& c.collateral_amount == 0
            },
            r matches Err(e) ==> e == StabError::WrongStatus || e
                == StabError::InsufficientCollateral,
    {
        let c = self.get_cdp(receipt_id);
        if !(c.status == CdpStatus::Liquidated || c.status == CdpStatus::ForceLiquidated
            || c.status == CdpStatus::Closed) {
            return Err(StabError::WrongStatus);
        }
        if c.collateral_amount != 0 {
            return Err(StabError::InsufficientCollateral);
        }
        Ok(())
    }

    pub fn set_liquidation_delay(&mut self, new_delay: i64)
        requires
            old(self).wf(),
        ensures
            final(self).wf(),
            final(self).parameters.liquidation_delay == new_delay,
    {
        let ghost pre = *self;
        self.parameters.liquidation_delay = new_delay;
        proof {
            lemma_wf_same_core(pre, *self);
        }
    }

    pub fn set_unmarked_delay(&mut self, new_delay: i64)
        requires
            old(self).wf(),
        ensures
            final(self).wf(),
            final(self).parameters.unmarked_delay == new_delay,
    {
        let ghost pre = *self;
        self.parameters.unmarked_delay = new_delay;
        proof {
            lemma_wf_same_core(pre, *self);
        }
    }

    pub fn set_stops(
        &mut self,
        liquidations: bool,
        openings: bool,
        closings: bool,
        force_mint: bool,
        force_liquidate: bool,
    )
        requires
            old(self).wf(),
        ensures
            final(self).wf(),
            final(self).parameters.stop_liquidations == liquidations,
            final(self).parameters.stop_openings == openings,
            final(self).parameters.stop_closings == closings,
            final(self).parameters.stop_force_mint == force_mint,
            final(self).parameters.stop_force_liquidate == force_liquidate,
    {
        let ghost pre = *self;
        self.parameters.stop_liquidations = liquidations;
        self.parameters.stop_openings = openings;
        self.parameters.stop_closings = closings;
        self.parameters.stop_force_mint = force_mint;
        self.parameters.stop_force_liquidate = force_liquidate;
        proof {
            lemma_wf_same_core(pre, *self);
        }
    }

    pub fn set_max_vector_length(&mut self, new_max_length: u64)
        requires
            old(self).wf(),
        ensures
            final(self).wf(),
            final(self).parameters.max_vector_length == new_max_length,
    {
        let ghost pre = *self;
        self.parameters.max_vector_length = new_max_length;
        proof {
            lemma_wf_same_core(pre, *self);
        }
    }

    pub fn set_minimum_mint(&mut self, new_minimum_mint: i128)
        requires
            old(self).wf(),
            new_minimum_mint >= 0,
        ensures
            final(self).wf(),
            final(self).parameters.minimum_mint == new_minimum_mint,
    {
        let ghost pre = *self;
        self.parameters.minimum_mint = new_minimum_mint;
        proof {
            lemma_wf_same_core(pre, *self);
        }
    }

    pub fn set_fines(&mut self, liquidator_fine: i128, stabilis_fine: i128)
        requires
            old(self).wf(),
            liquidator_fine >= 0,
            stabilis_fine >= 0,
        ensures
            final(self).wf(),
            final(self).parameters.liquidation_liquidation_fine == liquidator_fine,
            final(self).parameters.stabilis_liquidation_fine == stabilis_fine,
    {
        let ghost pre = *self;
        self.parameters.liquidation_liquidation_fine = liquidator_fine;
        self.parameters.stabilis_liquidation_fine = stabilis_fine;
        proof {
            lemma_wf_same_core(pre, *self);
        }
    }

    pub fn set_force_mint_multiplier(&mut self, new_multiplier: i128)
        requires
            old(self).wf(),
        ensures
            final(self).wf(),
            final(self).parameters.force_mint_cr_multiplier == new_multiplier,
    {
        let ghost pre = *self;
        self.parameters.force_mint_cr_multiplier = new_multiplier;
        proof {
            lemma_wf_same_core(pre, *self);
        }
    }

    /// The data of a position, for callers holding its receipt.
    pub fn cdp_data(&self, id: u64) -> (c: Cdp)
        requires
            self.has_cdp(id),
        ensures
            c == self.cdp_of(id),
    {
        self.get_cdp(id)
    }

    /// The data of a marker receipt.
    pub fn marker_data(&self, id: u64) -> (m: CdpMarker)
        requires
            self.has_marker(id),
        ensures
            m == self.marker_of(id),
    {
        self.get_marker(id)
    }

    /// The best-collateralized position of this collateral whose own
    /// resource matches the supplied one, scanning ratios downward.
    /// A position at entry `ei`, slot `ii` of this collateral's index
    /// whose own resource matches.
    pub open spec fn fm_match_at(self, ci: int, res: u64, ei: int, ii: int) -> bool {
        let t = self.collaterals@[ci].ratios;
        &&& 0 <= ei < t.entries@.len()
        &&& 0 <= ii < t.entries@[ei].ids@.len()
        &&& self.cdp_of(t.entries@[ei].ids@[ii]).collateral == res
    }

    /// The first match walking ratios downward, oldest first inside a
    /// bucket: no match sits at a higher ratio, none earlier in the
    /// same bucket.
    pub open spec fn fm_first_at(self, ci: int, res: u64, ei: int, ii: int) -> bool {
        &&& self.fm_match_at(ci, res, ei, ii)
        &&& forall|e2: int, i2: int|
            self.fm_match_at(ci, res, e2, i2) ==> (e2 < ei || (e2 == ei && i2 >= ii))
    }

    /// The position `force_mint` sells into: the first match of the
    /// downward scan.
    pub open spec fn spec_fm_target(self, ci: int, res: u64) -> u64 {
        let (ei, ii): (int, int) = choose|ei: int, ii: int| self.fm_first_at(ci, res, ei, ii);
        self.collaterals@[ci].ratios.entries@[ei].ids@[ii]
    }

    /// The downward scan's first match is the only one.
    proof fn lemma_fm_first_unique(self, ci: int, res: u64, e1: int, i1: int, e2: int, i2: int)
        requires
            self.fm_first_at(ci, res, e1, i1),
            self.fm_first_at(ci, res, e2, i2),
        ensures
            e1 == e2,
            i1 == i2,
    {
        assert(self.fm_match_at(ci, res, e1, i1));
        assert(self.fm_match_at(ci, res, e2, i2));
    }

    /// The best-collateralized position of this collateral whose own
    /// resource matches the supplied one, scanning ratios downward.
    fn find_force_mint_target(&self, ci: usize, res: u64) -> (r: Option<u64>)
        requires
            self.wf(),
            ci < self.collaterals@.len(),
        ensures
            r is None <==> (forall|ei: int, ii: int| !self.fm_match_at(ci as int, res, ei, ii)),
            r matches Some(vid) ==> (exists|ei: int, ii: int|
                self.fm_first_at(ci as int, res, ei, ii)) && vid == self.spec_fm_target(
                ci as int,
                res,
            ) && self.has_cdp(vid) && self.cdp_of(vid).status == CdpStatus::Healthy
                && self.cdp_of(vid).collateral == res && self.cdp_of(vid).parent_address
                == self.collaterals@[ci as int].resource_address,
    {
        let n = self.collaterals[ci].ratios.entries.len();
        let mut ei: usize = n;
        while ei > 0
            invariant
                self.wf(),
                ci < self.collaterals@.len(),
                ei <= self.collaterals@[ci as int].ratios.entries@.len(),
                forall|e2: int, i2: int|
                    self.fm_match_at(ci as int, res, e2, i2) ==> e2 < ei,
            decreases ei,
        {
            ei = ei - 1;
            let ids_len = self.collaterals[ci].ratios.entries[ei].ids.len();
            let mut ii: usize = 0;
            while ii < ids_len
                invariant
                    self.wf(),
                    ci < self.collaterals@.len(),
                    ei < self.collaterals@[ci as int].ratios.entries@.len(),
                    ids_len == self.collaterals@[ci as int].ratios.entries@[ei as int].ids@.len(),
                    forall|e2: int, i2: int|
                        self.fm_match_at(ci as int, res, e2, i2) ==> e2 <= ei,
                    forall|i2: int|
                        0 <= i2 < ii ==> !self.fm_match_at(ci as int, res, ei as int, i2),
                decreases ids_len - ii,
            {
                let vid = self.collaterals[ci].ratios.entries[ei].ids[ii];
                proof {
                    self.collaterals@[ci as int].ratios.lemma_entry(ei as int);
                    assert(self.collaterals@[ci as int].ratios.contains_id(
                        self.collaterals@[ci as int].ratios.entries@[ei as int].cr,
                        vid,
                    ));
                }
                let cv = self.get_cdp(vid);
                if cv.collateral == res {
                    proof {
                        assert(self.fm_match_at(ci as int, res, ei as int, ii as int));
                        assert(self.fm_first_at(ci as int, res, ei as int, ii as int));
                        let (e2, i2): (int, int) = choose|e2: int, i2: int|
                            self.fm_first_at(ci as int, res, e2, i2);
                        self.lemma_fm_first_unique(
                            ci as int,
                            res,
                            ei as int,
                            ii as int,
                            e2,
                            i2,
                        );
                    }
                    return Some(vid);
                }
                proof {
                    assert(!self.fm_match_at(ci as int, res, ei as int, ii as int));
                }
                ii = ii + 1;
            }
        }
        proof {
            assert forall|e2: int, i2: int| !self.fm_match_at(ci as int, res, e2, i2) by {}
        }
        None
    }

    /// All conditions under which `force_mint` succeeds, over the
    /// downward scan's first matching position.
    pub open spec fn spec_force_mint_ok(
        self,
        collateral: u64,
        payment: Bucket,
        pct_supply: i128,
    ) -> bool {
        let ci = self.col_ix(collateral);
        let vid = self.spec_fm_target(ci, payment.resource);
        let c = self.cdp_of(vid);
        let col = self.col(collateral);
        let p = self.spec_underlying(SCALE as int, c.collateral, c.is_pool_unit_collateral);
        let m = mul_fp(
            self.parameters.force_mint_cr_multiplier as int,
            col.liquidation_collateral_ratio as int,
        );
        let vr = mul_fp(p, col.usd_price as int);
        let k0 = div_fp(self.internal_stab_price as int, vr);
        let k = mul_fp(k0, pct_supply as int);
        let cp = mul_fp(c.collateral_amount as int, p);
        let ms = mul_fp(m, c.minted_stab as int);
        let numer = mul_fp(k, cp - ms);
        let kp = mul_fp(k, p);
        let maxadd = div_fp(numer, m - kp);
        let used = if payment.amount as int > maxadd {
            maxadd
        } else {
            payment.amount as int
        };
        let minted_new = div_fp(used, k);
        let new_debt = c.minted_stab as int + minted_new;
        let new_amount = c.collateral_amount as int + used;
        let new_col_minted = col.minted_stab as int + minted_new;
        let new_circ = self.circulating_stab as int + minted_new;
        &&& !self.parameters.stop_force_mint
        &&& self.has_col(collateral)
        &&& (exists|ei: int, ii: int| self.fm_match_at(ci, payment.resource, ei, ii))
        &&& fits_fp(p)
        &&& fits_fp(m)
        &&& fits_fp(vr)
        &&& vr != 0
        &&& fits_fp(k0)
        &&& fits_fp(k)
        &&& fits_fp(cp)
        &&& fits_fp(ms)
        &&& fits_fp(cp - ms)
        &&& fits_fp(numer)
        &&& fits_fp(kp)
        &&& fits_fp(m - kp)
        &&& m - kp != 0
        &&& fits_fp(maxadd)
        &&& maxadd > 0
        &&& k != 0
        &&& fits_fp(minted_new)
        &&& minted_new >= 0
        &&& fits_fp(new_debt)
        &&& fits_fp(new_amount)
        &&& fits_fp(new_col_minted)
        &&& fits_fp(new_circ)
        &&& new_circ != 0
        &&& fits_fp(div_fp(new_col_minted, new_circ))
        &&& div_fp(new_col_minted, new_circ) <= col.max_stab_share as int
        &&& (c.is_pool_unit_collateral ==> {
            let new_pu = self.pu(c.collateral).minted_stab as int + minted_new;
            &&& fits_fp(new_pu)
            &&& new_col_minted != 0
            &&& fits_fp(div_fp(new_pu, new_col_minted))
            &&& div_fp(new_pu, new_col_minted) <= self.pu(c.collateral).max_pool_share as int
        })
        &&& (if c.is_pool_unit_collateral {
            fits_fp(self.pu(c.collateral).vault as int + used)
        } else {
            fits_fp(col.vault as int + used)
        })
        &&& self.reindex_ok(
            vid,
            new_amount,
            new_debt,
            self.new_cr_of(vid, new_amount, new_debt),
            i128::MIN as int,
        )
    }

    /// Sell collateral into the best-collateralized matching position,
    /// minting fresh stablecoins against it; collateral beyond what
    /// keeps the position above the force-mint threshold comes back.
    #[verifier::rlimit(100)]
    #[verifier::spinoff_prover]
    pub fn force_mint(&mut self, collateral: u64, payment: Bucket, percentage_to_supply: i128)
        -> (r: Result<(Bucket, Option<Bucket>), StabError>)
        requires
            old(self).wf(),
            payment.amount >= 0,
            percentage_to_supply >= 0,
        ensures
            final(self).wf(),
            r is Err ==> *final(self) == *old(self),
            r is Ok <==> old(self).spec_force_mint_ok(collateral, payment, percentage_to_supply),
            r matches Err(e) ==> e == StabError::OperationStopped || e
                == StabError::UnknownCollateral || e == StabError::NoSuitableTarget || e
                == StabError::Overflow || e == StabError::ShareExceeded || e
                == StabError::CrBucketFull,
            r matches Ok(out) ==> {
                let ci = old(self).col_ix(collateral);
                let vid = old(self).spec_fm_target(ci, payment.resource);
                let c = old(self).cdp_of(vid);
                let p = old(self).spec_underlying(
                    SCALE as int,
                    c.collateral,
                    c.is_pool_unit_collateral,
                );
                let m = mul_fp(
                    old(self).parameters.force_mint_cr_multiplier as int,
                    old(self).col(collateral).liquidation_collateral_ratio as int,
                );
                let k = mul_fp(
                    div_fp(
                        old(self).internal_stab_price as int,
                        mul_fp(p, old(self).col(collateral).usd_price as int),
                    ),
                    percentage_to_supply as int,
                );
                let maxadd = div_fp(
                    mul_fp(
                        k,
                        mul_fp(c.collateral_amount as int, p) - mul_fp(m, c.minted_stab as int),
                    ),
                    m - mul_fp(k, p),
                );
                let used = if payment.amount as int > maxadd {
                    maxadd
                } else {
                    payment.amount as int
                };
                let minted_new = div_fp(used, k);
                &&& out.0 == (Bucket {
                    resource: old(self).stab_resource,
                    amount: minted_new as i128,
                })
                &&& out.0.amount >= 0
                &&& (if payment.amount as int > maxadd {
                    out.1 == Some(
                        Bucket {
                            resource: payment.resource,
                            amount: (payment.amount as int - maxadd) as i128,
                        },
                    )
                } else {
                    out.1 is None
                })
                &&& final(self).cdps@ == old(self).cdps@.update(
                    vid - 1,
                    Cdp {
                        collateral_amount: (c.collateral_amount as int + used) as i128,
                        minted_stab: (c.minted_stab as int + minted_new) as i128,
                        collateral_stab_ratio: (old(self).new_cr_of(
                            vid,
                            c.collateral_amount as int + used,
                            c.minted_stab as int + minted_new,
                        )) as i128,
                        ..c
                    },
                )
                &&& final(self).circulating_stab == old(self).circulating_stab + out.0.amount
                &&& final(self).col(collateral).minted_stab as int == old(self).col(
                    collateral,
                ).minted_stab as int + minted_new
                &&& final(self).markers@ == old(self).markers@
                &&& final(self).receipts@ == old(self).receipts@
                &&& final(self).internal_stab_price == old(self).internal_stab_price
                &&& final(self).parameters == old(self).parameters
            },
    {
        let ghost pre = *self;
        if self.parameters.stop_force_mint {
            return Err(StabError::OperationStopped);
        }
        let ci = match self.find_col(collateral) {
            Some(ci) => ci,
            None => {
                return Err(StabError::UnknownCollateral);
            },
        };
        proof {
            self.lemma_col_at(ci as int);
        }
        let vid = match self.find_force_mint_target(ci, payment.resource) {
            Some(v) => v,
            None => {
                return Err(StabError::NoSuitableTarget);
            },
        };
        let c = self.get_cdp(vid);
        proof {
            assert(pre.cdp_linked(vid - 1));
        }
        let p = match self.pool_to_real(SCALE, c.collateral, c.is_pool_unit_collateral) {
            Some(v) => v,
            None => {
                return Err(StabError::Overflow);
            },
        };
        let m = match dec_mul(
            self.parameters.force_mint_cr_multiplier,
            self.collaterals[ci].liquidation_collateral_ratio,
        ) {
            Some(v) => v,
            None => {
                return Err(StabError::Overflow);
            },
        };
        let value_rate = match dec_mul(p, self.collaterals[ci].usd_price) {
            Some(v) => v,
            None => {
                return Err(StabError::Overflow);
            },
        };
        let k0 = match dec_div(self.internal_stab_price, value_rate) {
            Some(v) => v,
            None => {
                return Err(StabError::Overflow);
            },
        };
        let k = match dec_mul(k0, percentage_to_supply) {
            Some(v) => v,
            None => {
                return Err(StabError::Overflow);
            },
        };
        let cp = match dec_mul(c.collateral_amount, p) {
            Some(v) => v,
            None => {
                return Err(StabError::Overflow);
            },
        };
        let ms = match dec_mul(m, c.minted_stab) {
            Some(v) => v,
            None => {
                return Err(StabError::Overflow);
            },
        };
        let room = match sub_fp(cp, ms) {
            Some(v) => v,
            None => {
                return Err(StabError::Overflow);
            },
        };
        let numer = match dec_mul(k, room) {
            Some(v) => v,
            None => {
                return Err(StabError::Overflow);
            },
        };
        let kp = match dec_mul(k, p) {
            Some(v) => v,
            None => {
                return Err(StabError::Overflow);
            },
        };
        let denom = match sub_fp(m, kp) {
            Some(v) => v,
            None => {
                return Err(StabError::Overflow);
            },
        };
        let max_addition = match dec_div(numer, denom) {
            Some(v) => v,
            None => {
                return Err(StabError::Overflow);
            },
        };
        if max_addition <= 0 {
            return Err(StabError::NoSuitableTarget);
        }
        let used: i128 = if payment.amount > max_addition {
            max_addition
        } else {
            payment.amount
        };
        let minted_new = match dec_div(used, k) {
            Some(v) => v,
            None => {
                return Err(StabError::Overflow);
            },
        };
        if minted_new < 0 {
            return Err(StabError::Overflow);
        }
        let new_debt = match add_fp(c.minted_stab, minted_new) {
            Some(v) => v,
            None => {
                return Err(StabError::Overflow);
            },
        };
        let new_amount = match add_fp(c.collateral_amount, used) {
            Some(v) => v,
            None => {
                return Err(StabError::Overflow);
            },
        };
        // the freshly minted debt still has to respect the share caps
        let new_col_minted = match add_fp(self.collaterals[ci].minted_stab, minted_new) {
            Some(v) => v,
            None => {
                return Err(StabError::Overflow);
            },
        };
        let new_circ = match add_fp(self.circulating_stab, minted_new) {
            Some(v) => v,
            None => {
                return Err(StabError::Overflow);
            },
        };
        let share = match dec_div(new_col_minted, new_circ) {
            Some(v) => v,
            None => {
                return Err(StabError::Overflow);
            },
        };
        if share > self.collaterals[ci].max_stab_share {
            return Err(StabError::ShareExceeded);
        }
        if c.is_pool_unit_collateral {
            let pui0 = match self.find_pu(c.collateral) {
                Some(pi) => pi,
                None => {
                    proof {
                        assert(false);
                    }
                    return Err(StabError::UnknownCollateral);
                },
            };
            proof {
                self.lemma_pu_at(pui0 as int);
            }
            let new_pu = match add_fp(self.pool_units[pui0].minted_stab, minted_new) {
                Some(v) => v,
                None => {
                    return Err(StabError::Overflow);
                },
            };
            let pshare = match dec_div(new_pu, new_col_minted) {
                Some(v) => v,
                None => {
                    return Err(StabError::Overflow);
                },
            };
            if pshare > self.pool_units[pui0].max_pool_share {
                return Err(StabError::ShareExceeded);
            }
            if i128::MAX - used < self.pool_units[pui0].vault {
                return Err(StabError::Overflow);
            }
        } else {
            if i128::MAX - used < self.collaterals[ci].vault {
                return Err(StabError::Overflow);
            }
        }
        match self.reindex_position(vid, new_amount, new_debt, 0, used, i128::MIN) {
            Ok(_) => {
                let excess: Option<Bucket> = if payment.amount > max_addition {
                    Some(
                        Bucket {
                            resource: payment.resource,
                            amount: payment.amount - max_addition,
                        },
                    )
                } else {
                    None
                };
                Ok((Bucket { resource: self.stab_resource, amount: minted_new }, excess))
            },
            Err(e) => Err(e),
        }
    }

    /// Whether the bucket a healthy position would re-enter at `cr` has
    /// room, not counting the position itself at its old ratio.
    fn bucket_room(&self, ci: usize, cr: i128, old_cr: i128, id: u64) -> (r: bool)
        requires
            self.wf_base(),
            self.wf_index(),
            self.has_cdp(id),
            self.cdp_of(id).collateral_stab_ratio == old_cr,
            ci < self.collaterals@.len(),
            self.collaterals@[ci as int].ratios.contains_id(old_cr, id),
        ensures
            r == (self.collaterals@[ci as int].ratios.ids_at(cr).remove_value(id).len()
                < self.parameters.max_vector_length),
    {
        let n = self.collaterals[ci].ratios.bucket_len(cr);
        let holds_it = cr == old_cr;
        proof {
            let s = self.collaterals@[ci as int].ratios.ids_at(cr);
            s.index_of_first_ensures(id);
            if cr == old_cr {
                assert(s.contains(id));
                assert(s.remove_value(id).len() == s.len() - 1);
            } else {
                if self.collaterals@[ci as int].ratios.contains_id(cr, id) {
                    assert(self.cdp_of(id).collateral_stab_ratio == cr);
                    assert(self.cdp_of(id).collateral_stab_ratio == old_cr);
                }
                assert(!s.contains(id));
                assert(s.remove_value(id) == s);
            }
        }
        if holds_it {
            let m = (n - 1) as u64;
            m < self.parameters.max_vector_length
        } else {
            let m = n as u64;
            m < self.parameters.max_vector_length
        }
    }

    /// Register a plain collateral: accepted at once, nothing minted,
    /// the liquidation threshold derived from price and ratio.
    #[verifier::rlimit(80)]
    #[verifier::spinoff_prover]
    pub fn add_collateral(&mut self, address: u64, chosen_mcr: i128, initial_price: i128) -> (r:
        Result<(), StabError>)
        requires
            old(self).wf(),
            initial_price > 0,
            chosen_mcr >= 0,
        ensures
            final(self).wf(),
            r is Err ==> *final(self) == *old(self),
            r is Ok <==> (!old(self).has_col(address) && fits_fp(
                div_fp(old(self).internal_stab_price as int, initial_price as int),
            ) && fits_fp(
                mul_fp(
                    chosen_mcr as int,
                    div_fp(old(self).internal_stab_price as int, initial_price as int),
                ),
            )),
            r matches Err(e) ==> e == (if old(self).has_col(address) {
                StabError::AlreadyRegistered
            } else {
                StabError::Overflow
            }),
            r is Ok ==> {
                &&& final(self).collaterals@.len() == old(self).collaterals@.len() + 1
                &&& forall|i: int|
                    0 <= i < old(self).collaterals@.len() ==> final(self).collaterals@[i] == old(
                        self,
                    ).collaterals@[i]
                &&& final(self).has_col(address)
                &&& final(self).col_ix(address) == old(self).collaterals@.len()
                &&& final(self).col(address).mcr == chosen_mcr
                &&& final(self).col(address).usd_price == initial_price
                &&& final(self).col(address).liquidation_collateral_ratio as int == mul_fp(
                    chosen_mcr as int,
                    div_fp(old(self).internal_stab_price as int, initial_price as int),
                )
                &&& final(self).col(address).accepted
                &&& !final(self).col(address).initialized
                &&& final(self).col(address).max_stab_share == SCALE
                &&& final(self).col(address).minted_stab == 0
                &&& final(self).col(address).vault == 0
                &&& final(self).col(address).treasury == 0
                &&& final(self).col(address).collateral_amount == 0
                &&& final(self).col(address).highest_cr == 0
                &&& final(self).col(address).resource_address == address
                &&& final(self).col(address).ratios.entries@.len() == 0
                &&& final(self).cdps@ == old(self).cdps@
                &&& final(self).pool_units == old(self).pool_units
                &&& final(self).markers == old(self).markers
                &&& final(self).receipts == old(self).receipts
                &&& final(self).marked_cdps == old(self).marked_cdps
                &&& final(self).marked_cdps_active == old(self).marked_cdps_active
                &&& final(self).marker_placing_counter == old(self).marker_placing_counter
                &&& final(self).circulating_stab == old(self).circulating_stab
                &&& final(self).internal_stab_price == old(self).internal_stab_price
                &&& final(self).stab_resource == old(self).stab_resource
                &&& final(self).parameters == old(self).parameters
            },
    {
        if self.find_col(address).is_some() {
            return Err(StabError::AlreadyRegistered);
        }
        let ratio_part = match dec_div(self.internal_stab_price, initial_price) {
            Some(v) => v,
            None => { return Err(StabError::Overflow) },
        };
        let lcr = match dec_mul(chosen_mcr, ratio_part) {
            Some(v) => v,
            None => { return Err(StabError::Overflow) },
        };
        let info = CollateralInfo {
            mcr: chosen_mcr,
            usd_price: initial_price,
            liquidation_collateral_ratio: lcr,
            vault: 0,
            resource_address: address,
            treasury: 0,
            accepted: true,
            initialized: false,
            max_stab_share: SCALE,
            minted_stab: 0,
            collateral_amount: 0,
            highest_cr: 0,
            ratios: CrIndex::new(),
        };
        let ghost pre = *self;
        self.collaterals.push(info);
        proof {
            let n = pre.collaterals@.len() as int;
            lemma_col_push(pre, *self, info);
            lemma_same_pus(pre, *self);
            assert(forall|i: int| 0 <= i < n ==> self.collaterals@[i] == pre.collaterals@[i]);
            assert(self.wf_base()) by {
                assert forall|i: int| 0 <= i < self.cdps@.len() implies #[trigger] self.cdp_linked(
                    i,
                ) by {
                    assert(pre.cdp_linked(i));
                }
            }
            lemma_marks_same(pre, *self);
            assert(self.wf_index()) by {
                assert forall|ci: int, cr: i128, id: u64|
                    0 <= ci < self.collaterals@.len()
                        && (#[trigger] self.collaterals@[ci].ratios.contains_id(cr, id))
                        implies self.has_cdp(id) && self.cdp_of(
                    id,
                ).status == CdpStatus::Healthy && self.cdp_of(id).parent_address
                    == self.collaterals@[ci].resource_address && self.cdp_of(
                    id,
                ).collateral_stab_ratio == cr by {
                    if ci < n {
                        assert(pre.collaterals@[ci].ratios.contains_id(cr, id));
                    } else {
                        assert(!info.ratios.has_key(cr));
                        assert(info.ratios.ids_at(cr) == Seq::<u64>::empty());
                    }
                }
                assert forall|i: int|
                    0 <= i < self.cdps@.len() && (#[trigger] self.cdps@[i]).status
                        == CdpStatus::Healthy implies self.has_col(self.cdps@[i].parent_address)
                    && self.col(self.cdps@[i].parent_address).ratios.contains_id(
                    self.cdps@[i].collateral_stab_ratio,
                    (i + 1) as u64,
                ) by {
                    assert(pre.has_col(pre.cdps@[i].parent_address));
                }
            }
            assert(self.wf_sums()) by {
                lemma_sum_debt_zero(self.cdps@, debt_w(address), pre, address);
                lemma_sum_vault_zero(self.cdps@, vault_w(address), pre, address);
                lemma_sum_map_push(pre.collaterals@, info, col_minted_w());
                assert forall|i: int|
                    0 <= i < self.collaterals@.len()
                        implies (#[trigger] self.collaterals@[i]).minted_stab as int == sum_map(
                    self.cdps@,
                    debt_w(self.collaterals@[i].resource_address),
                ) && self.collaterals@[i].vault as int == sum_map(
                    self.cdps@,
                    vault_w(self.collaterals@[i].resource_address),
                ) by {
                    if i < n {
                        assert(self.collaterals@[i] == pre.collaterals@[i]);
                    }
                }
            }
        }
        Ok(())
    }
}

/// Everything `open_cdp`'s commit step writes, computed while checking.
struct OpenPlan {
    is_pool: bool,
    pui: usize,
    ci: usize,
    cr: i128,
    new_col_amt: i128,
    new_col_minted: i128,
    new_circ: i128,
    new_pu_minted: i128,
    new_pu_vault: i128,
    new_vault: i128,
}

impl Stabilis {
    /// Whether a bucket's resource is a pool-unit collateral.
    pub open spec fn is_pool(self, res: u64) -> bool {
        self.has_pu(res)
    }

    /// The collateral whose index and totals a resource belongs to.
    pub open spec fn parent_of(self, res: u64) -> u64 {
        if self.has_pu(res) {
            self.pu(res).parent_address
        } else {
            res
        }
    }

    /// The collateral-value gate of `open_cdp`: the parent's minimum
    /// collateralization ratio, or the fixed floor of three quarters
    /// when the caller opts out of the safe check.
    pub open spec fn open_gate(self, parent: u64, safe: bool) -> int {
        if safe {
            self.col(parent).mcr as int
        } else {
            (SCALE as int) * 3 / 4
        }
    }

    /// All conditions under which `open_cdp` succeeds, in the order the
    /// operation checks them, arithmetic representability included.
    #[verifier::opaque]
    pub open spec fn spec_open_ok(self, b: Bucket, mint: i128, safe: bool) -> bool {
        let pool = self.is_pool(b.resource);
        let parent = self.parent_of(b.resource);
        let und = self.spec_underlying(b.amount as int, b.resource, pool);
        let value = mul_fp(self.col(parent).usd_price as int, und);
        let debt_value = mul_fp(self.internal_stab_price as int, mint as int);
        let gate = mul_fp(debt_value, self.open_gate(parent, safe));
        let cr = div_fp(und, mint as int);
        let new_col_minted = self.col(parent).minted_stab as int + mint;
        let new_circ = self.circulating_stab as int + mint;
        &&& mint >= self.parameters.minimum_mint
        &&& !self.parameters.stop_openings
        &&& (if pool {
            self.pu(b.resource).accepted
        } else {
            self.has_col(b.resource) && self.col(b.resource).accepted
        })
        &&& self.has_col(parent)
        &&& fits_fp(und)
        &&& fits_fp(self.col(parent).collateral_amount as int + und)
        &&& fits_fp(value)
        &&& fits_fp(debt_value)
        &&& fits_fp(gate)
        &&& value >= gate
        &&& mint != 0
        &&& fits_fp(cr)
        &&& (self.col(parent).initialized ==> self.col(parent).ratios.ids_at(cr as i128).len()
            < self.parameters.max_vector_length)
        &&& fits_fp(new_col_minted)
        &&& fits_fp(new_circ)
        &&& new_circ != 0
        &&& fits_fp(div_fp(new_col_minted, new_circ))
        &&& div_fp(new_col_minted, new_circ) <= self.col(parent).max_stab_share as int
        &&& (pool ==> {
            let new_pu_minted = self.pu(b.resource).minted_stab as int + mint;
            &&& fits_fp(new_pu_minted)
            &&& new_col_minted != 0
            &&& fits_fp(div_fp(new_pu_minted, new_col_minted))
            &&& div_fp(new_pu_minted, new_col_minted) <= self.pu(b.resource).max_pool_share
                as int
        })
        &&& (if pool {
            fits_fp(self.pu(b.resource).vault as int + b.amount)
        } else {
            fits_fp(self.col(parent).vault as int + b.amount)
        })
    }
}

/// Collateral lookups agree between two states with the same registry.
pub proof fn lemma_same_cols(pre: Stabilis, post: Stabilis)
    requires
        post.collaterals@ == pre.collaterals@,
        forall|i: int, j: int|
            0 <= i < j < pre.collaterals@.len() ==> pre.collaterals@[i].resource_address
                != pre.collaterals@[j].resource_address,
    ensures
        forall|res: u64| #[trigger] post.has_col(res) == pre.has_col(res),
        forall|res: u64|
            #[trigger] pre.has_col(res) ==> post.col_ix(res) == pre.col_ix(res) && post.col(res)
                == pre.col(res),
{
    assert forall|res: u64| #[trigger] post.has_col(res) == pre.has_col(res) by {
        if pre.has_col(res) {
            let w = pre.col_ix(res);
            assert(post.collaterals@[w].resource_address == res);
        }
        if post.has_col(res) {
            let w = post.col_ix(res);
            assert(pre.collaterals@[w].resource_address == res);
        }
    }
    assert forall|res: u64| #[trigger]
        pre.has_col(res) implies post.col_ix(res) == pre.col_ix(res) && post.col(res) == pre.col(
        res,
    ) by {
        let a = pre.col_ix(res);
        let b = post.col_ix(res);
        assert(pre.collaterals@[a].resource_address == res);
        assert(post.collaterals@[b].resource_address == res);
        if a < b {
            assert(pre.collaterals@[a].resource_address != pre.collaterals@[b].resource_address);
        } else if b < a {
            assert(pre.collaterals@[b].resource_address != pre.collaterals@[a].resource_address);
        }
    }
}

/// Pool-unit lookups agree between two states with the same registry.
pub proof fn lemma_same_pus(pre: Stabilis, post: Stabilis)
    requires
        post.pool_units@ == pre.pool_units@,
        forall|i: int, j: int|
            0 <= i < j < pre.pool_units@.len() ==> pre.pool_units@[i].address
                != pre.pool_units@[j].address,
    ensures
        forall|res: u64| #[trigger] post.has_pu(res) == pre.has_pu(res),
        forall|res: u64|
            #[trigger] pre.has_pu(res) ==> post.pu_ix(res) == pre.pu_ix(res) && post.pu(res)
                == pre.pu(res),
{
    assert forall|res: u64| #[trigger] post.has_pu(res) == pre.has_pu(res) by {
        if pre.has_pu(res) {
            let w = pre.pu_ix(res);
            assert(post.pool_units@[w].address == res);
        }
        if post.has_pu(res) {
            let w = post.pu_ix(res);
            assert(pre.pool_units@[w].address == res);
        }
    }
    assert forall|res: u64| #[trigger]
        pre.has_pu(res) implies post.pu_ix(res) == pre.pu_ix(res) && post.pu(res) == pre.pu(
        res,
    ) by {
        let a = pre.pu_ix(res);
        let b = post.pu_ix(res);
        assert(pre.pool_units@[a].address == res);
        assert(post.pool_units@[b].address == res);
        if a < b {
            assert(pre.pool_units@[a].address != pre.pool_units@[b].address);
        } else if b < a {
            assert(pre.pool_units@[b].address != pre.pool_units@[a].address);
        }
    }
}

/// Appending a record for a fresh resource: old lookups keep their
/// answers, the new resource resolves to the appended record.
pub proof fn lemma_col_push(pre: Stabilis, post: Stabilis, info: CollateralInfo)
    requires
        post.collaterals@ == pre.collaterals@.push(info),
        !pre.has_col(info.resource_address),
        forall|i: int, j: int|
            0 <= i < j < pre.collaterals@.len() ==> pre.collaterals@[i].resource_address
                != pre.collaterals@[j].resource_address,
    ensures
        forall|i: int, j: int|
            0 <= i < j < post.collaterals@.len() ==> post.collaterals@[i].resource_address
                != post.collaterals@[j].resource_address,
        forall|res: u64|
            #[trigger] post.has_col(res) <==> (pre.has_col(res) || res
                == info.resource_address),
        forall|res: u64|
            #[trigger] pre.has_col(res) ==> post.col_ix(res) == pre.col_ix(res) && post.col(res)
                == pre.col(res),
        post.has_col(info.resource_address),
        post.col_ix(info.resource_address) == pre.collaterals@.len(),
        post.col(info.resource_address) == info,
{
    let n = pre.collaterals@.len() as int;
    assert forall|i: int, j: int|
        0 <= i < j < post.collaterals@.len() implies post.collaterals@[i].resource_address
        != post.collaterals@[j].resource_address by {
        if j < n {
        } else {
            assert(post.collaterals@[j].resource_address == info.resource_address);
            if post.collaterals@[i].resource_address == info.resource_address {
                assert(pre.collaterals@[i].resource_address == info.resource_address);
                assert(pre.has_col(info.resource_address));
            }
        }
    }
    assert forall|res: u64| #[trigger]
        post.has_col(res) <==> (pre.has_col(res) || res == info.resource_address) by {
        if post.has_col(res) {
            let w = post.col_ix(res);
            if w < n {
                assert(pre.collaterals@[w].resource_address == res);
            }
        }
        if pre.has_col(res) {
            let w = pre.col_ix(res);
            assert(post.collaterals@[w].resource_address == res);
        }
        if res == info.resource_address {
            assert(post.collaterals@[n].resource_address == res);
        }
    }
    assert forall|res: u64| #[trigger]
        pre.has_col(res) implies post.col_ix(res) == pre.col_ix(res) && post.col(res) == pre.col(
        res,
    ) by {
        let a = pre.col_ix(res);
        assert(pre.collaterals@[a].resource_address == res);
        assert(post.collaterals@[a].resource_address == res);
        let b = post.col_ix(res);
        assert(post.collaterals@[b].resource_address == res);
        if a < b {
            assert(post.collaterals@[a].resource_address != post.collaterals@[b].resource_address);
        } else if b < a {
            assert(post.collaterals@[b].resource_address != post.collaterals@[a].resource_address);
        }
    }
    assert(post.collaterals@[n].resource_address == info.resource_address);
    let b = post.col_ix(info.resource_address);
    assert(post.collaterals@[b].resource_address == info.resource_address);
    if b < n {
        assert(pre.collaterals@[b].resource_address == info.resource_address);
        assert(pre.has_col(info.resource_address));
    }
}

/// Appending a pool-unit record for a fresh resource.
pub proof fn lemma_pu_push(pre: Stabilis, post: Stabilis, info: PoolUnitInfo)
    requires
        post.pool_units@ == pre.pool_units@.push(info),
        !pre.has_pu(info.address),
        forall|i: int, j: int|
            0 <= i < j < pre.pool_units@.len() ==> pre.pool_units@[i].address
                != pre.pool_units@[j].address,
    ensures
        forall|i: int, j: int|
            0 <= i < j < post.pool_units@.len() ==> post.pool_units@[i].address
                != post.pool_units@[j].address,
        forall|res: u64|
            #[trigger] post.has_pu(res) <==> (pre.has_pu(res) || res == info.address),
        forall|res: u64|
            #[trigger] pre.has_pu(res) ==> post.pu_ix(res) == pre.pu_ix(res) && post.pu(res)
                == pre.pu(res),
        post.has_pu(info.address),
        post.pu_ix(info.address) == pre.pool_units@.len(),
        post.pu(info.address) == info,
{
    let n = pre.pool_units@.len() as int;
    assert forall|i: int, j: int|
        0 <= i < j < post.pool_units@.len() implies post.pool_units@[i].address
        != post.pool_units@[j].address by {
        if j < n {
        } else {
            if post.pool_units@[i].address == info.address {
                assert(pre.pool_units@[i].address == info.address);
                assert(pre.has_pu(info.address));
            }
        }
    }
    assert forall|res: u64| #[trigger]
        post.has_pu(res) <==> (pre.has_pu(res) || res == info.address) by {
        if post.has_pu(res) {
            let w = post.pu_ix(res);
            if w < n {
                assert(pre.pool_units@[w].address == res);
            }
        }
        if pre.has_pu(res) {
            let w = pre.pu_ix(res);
            assert(post.pool_units@[w].address == res);
        }
        if res == info.address {
            assert(post.pool_units@[n].address == res);
        }
    }
    assert forall|res: u64| #[trigger]
        pre.has_pu(res) implies post.pu_ix(res) == pre.pu_ix(res) && post.pu(res) == pre.pu(
        res,
    ) by {
        let a = pre.pu_ix(res);
        assert(pre.pool_units@[a].address == res);
        assert(post.pool_units@[a].address == res);
        let b = post.pu_ix(res);
        assert(post.pool_units@[b].address == res);
        if a < b {
            assert(post.pool_units@[a].address != post.pool_units@[b].address);
        } else if b < a {
            assert(post.pool_units@[b].address != post.pool_units@[a].address);
        }
    }
    assert(post.pool_units@[n].address == info.address);
    let b = post.pu_ix(info.address);
    assert(post.pool_units@[b].address == info.address);
    if b < n {
        assert(pre.pool_units@[b].address == info.address);
        assert(pre.has_pu(info.address));
    }
}

/// Replacing one collateral record, address kept: every other lookup
/// keeps its answer.
pub proof fn lemma_col_update(pre: Stabilis, post: Stabilis, ci: int, v: CollateralInfo)
    requires
        0 <= ci < pre.collaterals@.len(),
        post.collaterals@ == pre.collaterals@.update(ci, v),
        v.resource_address == pre.collaterals@[ci].resource_address,
        forall|i: int, j: int|
            0 <= i < j < pre.collaterals@.len() ==> pre.collaterals@[i].resource_address
                != pre.collaterals@[j].resource_address,
    ensures
        forall|i: int, j: int|
            0 <= i < j < post.collaterals@.len() ==> post.collaterals@[i].resource_address
                != post.collaterals@[j].resource_address,
        forall|res: u64| #[trigger] post.has_col(res) == pre.has_col(res),
        forall|res: u64|
            #[trigger] pre.has_col(res) ==> post.col_ix(res) == pre.col_ix(res),
        forall|res: u64|
            pre.has_col(res) && res != v.resource_address ==> post.col(res) == pre.col(res),
        post.has_col(v.resource_address),
        post.col_ix(v.resource_address) == ci,
        post.col(v.resource_address) == v,
{
    assert(forall|i: int|
        0 <= i < post.collaterals@.len() ==> post.collaterals@[i].resource_address
            == pre.collaterals@[i].resource_address);
    assert forall|res: u64| #[trigger] post.has_col(res) == pre.has_col(res) by {
        if pre.has_col(res) {
            let w = pre.col_ix(res);
            assert(post.collaterals@[w].resource_address == res);
        }
        if post.has_col(res) {
            let w = post.col_ix(res);
            assert(pre.collaterals@[w].resource_address == res);
        }
    }
    assert forall|res: u64| #[trigger]
        pre.has_col(res) implies post.col_ix(res) == pre.col_ix(res) by {
        let a = pre.col_ix(res);
        assert(post.collaterals@[a].resource_address == res);
        let b = post.col_ix(res);
        assert(pre.collaterals@[b].resource_address == res);
        if a < b {
            assert(pre.collaterals@[a].resource_address != pre.collaterals@[b].resource_address);
        } else if b < a {
            assert(pre.collaterals@[b].resource_address != pre.collaterals@[a].resource_address);
        }
    }
    assert forall|res: u64|
        pre.has_col(res) && res != v.resource_address implies post.col(res) == pre.col(res) by {
        let a = pre.col_ix(res);
        assert(a != ci) by {
            if a == ci {
                assert(pre.collaterals@[ci].resource_address == res);
            }
        }
    }
    assert(pre.collaterals@[ci].resource_address == v.resource_address);
    assert(pre.has_col(v.resource_address));
    let a = pre.col_ix(v.resource_address);
    assert(pre.collaterals@[a].resource_address == v.resource_address);
    if a < ci {
        assert(pre.collaterals@[a].resource_address != pre.collaterals@[ci].resource_address);
    } else if ci < a {
        assert(pre.collaterals@[ci].resource_address != pre.collaterals@[a].resource_address);
    }
}

/// Replacing one pool-unit record, address kept.
pub proof fn lemma_pu_update(pre: Stabilis, post: Stabilis, pi: int, v: PoolUnitInfo)
    requires
        0 <= pi < pre.pool_units@.len(),
        post.pool_units@ == pre.pool_units@.update(pi, v),
        v.address == pre.pool_units@[pi].address,
        forall|i: int, j: int|
            0 <= i < j < pre.pool_units@.len() ==> pre.pool_units@[i].address
                != pre.pool_units@[j].address,
    ensures
        forall|i: int, j: int|
            0 <= i < j < post.pool_units@.len() ==> post.pool_units@[i].address
                != post.pool_units@[j].address,
        forall|res: u64| #[trigger] post.has_pu(res) == pre.has_pu(res),
        forall|res: u64| #[trigger] pre.has_pu(res) ==> post.pu_ix(res) == pre.pu_ix(res),
        forall|res: u64|
            pre.has_pu(res) && res != v.address ==> post.pu(res) == pre.pu(res),
        post.has_pu(v.address),
        post.pu_ix(v.address) == pi,
        post.pu(v.address) == v,
{
    assert(forall|i: int|
        0 <= i < post.pool_units@.len()
            ==> post.pool_units@[i].address == pre.pool_units@[i].address);
    assert forall|res: u64| #[trigger] post.has_pu(res) == pre.has_pu(res) by {
        if pre.has_pu(res) {
            let w = pre.pu_ix(res);
            assert(post.pool_units@[w].address == res);
        }
        if post.has_pu(res) {
            let w = post.pu_ix(res);
            assert(pre.pool_units@[w].address == res);
        }
    }
    assert forall|res: u64| #[trigger]
        pre.has_pu(res) implies post.pu_ix(res) == pre.pu_ix(res) by {
        let a = pre.pu_ix(res);
        assert(post.pool_units@[a].address == res);
        let b = post.pu_ix(res);
        assert(pre.pool_units@[b].address == res);
        if a < b {
            assert(pre.pool_units@[a].address != pre.pool_units@[b].address);
        } else if b < a {
            assert(pre.pool_units@[b].address != pre.pool_units@[a].address);
        }
    }
    assert forall|res: u64|
        pre.has_pu(res) && res != v.address implies post.pu(res) == pre.pu(res) by {
        let a = pre.pu_ix(res);
        assert(a != pi) by {
            if a == pi {
                assert(pre.pool_units@[pi].address == res);
            }
        }
    }
    let a = pre.pu_ix(v.address);
    assert(pre.pool_units@[a].address == v.address) by {
        assert(pre.has_pu(v.address));
    }
    if a < pi {
        assert(pre.pool_units@[a].address != pre.pool_units@[pi].address);
    } else if pi < a {
        assert(pre.pool_units@[pi].address != pre.pool_units@[a].address);
    }
}

/// How `open_cdp`'s commit step changes the state: one position
/// appended, its ratio indexed, the parent's and pool unit's totals and
/// vault moved by the minted debt and the stored bucket.
pub open spec fn open_rel(
    pre: Stabilis,
    post: Stabilis,
    b: Bucket,
    mint: i128,
    cii: int,
    pui: int,
    cdp: Cdp,
    cr: i128,
    id64: u64,
) -> bool {
    let oldc = pre.collaterals@[cii];
    let newc = post.collaterals@[cii];
    &&& 0 <= cii < pre.collaterals@.len()
    &&& pre.cdps@.len() + 1 < u64::MAX
    &&& id64 == pre.cdps@.len() + 1
    &&& b.amount >= 0
    &&& mint >= 0
    &&& cr >= 0
    &&& cdp == (Cdp {
        collateral: b.resource,
        parent_address: oldc.resource_address,
        is_pool_unit_collateral: pre.has_pu(b.resource),
        collateral_amount: b.amount,
        minted_stab: mint,
        collateral_stab_ratio: cr,
        status: CdpStatus::Healthy,
        marker_id: 0,
    })
    &&& post.cdps@ == pre.cdps@.push(cdp)
    &&& post.collaterals@ == pre.collaterals@.update(cii, newc)
    &&& newc.resource_address == oldc.resource_address
    &&& newc.minted_stab == oldc.minted_stab + mint
    &&& newc.treasury == oldc.treasury
    &&& newc.ratios.wf()
    &&& (forall|k: i128, j: u64|
        newc.ratios.contains_id(k, j) <==> (oldc.ratios.contains_id(k, j) || (k == cr && j
            == id64)))
    &&& (if cdp.is_pool_unit_collateral {
        &&& newc.vault == oldc.vault
        &&& 0 <= pui < pre.pool_units@.len()
        &&& pre.pool_units@[pui].address == b.resource
        &&& pre.pool_units@[pui].parent_address == oldc.resource_address
        &&& post.pool_units@ == pre.pool_units@.update(pui, post.pool_units@[pui])
        &&& post.pool_units@[pui].address == b.resource
        &&& post.pool_units@[pui].parent_address == pre.pool_units@[pui].parent_address
        &&& post.pool_units@[pui].minted_stab == pre.pool_units@[pui].minted_stab + mint
        &&& post.pool_units@[pui].vault == pre.pool_units@[pui].vault + b.amount
        &&& post.pool_units@[pui].treasury == pre.pool_units@[pui].treasury
        &&& post.pool_units@[pui].redemption_rate == pre.pool_units@[pui].redemption_rate
    } else {
        &&& b.resource == oldc.resource_address
        &&& newc.vault == oldc.vault + b.amount
        &&& post.pool_units@ == pre.pool_units@
    })
    &&& post.circulating_stab == pre.circulating_stab + mint
    &&& post.markers@ == pre.markers@
    &&& post.receipts@ == pre.receipts@
    &&& post.marked_cdps == pre.marked_cdps
    &&& post.marked_cdps_active == pre.marked_cdps_active
    &&& post.marker_placing_counter == pre.marker_placing_counter
    &&& post.parameters == pre.parameters
}

#[verifier::rlimit(100)]
#[verifier::spinoff_prover]
proof fn open_commit_base(
    pre: Stabilis,
    post: Stabilis,
    b: Bucket,
    mint: i128,
    cii: int,
    pui: int,
    cdp: Cdp,
    cr: i128,
    id64: u64,
)
    requires
        pre.wf_base(),
        open_rel(pre, post, b, mint, cii, pui, cdp, cr, id64),
    ensures
        post.wf_base(),
{
    let n = pre.cdps@.len() as int;
    let newinfo = post.collaterals@[cii];
    let parent = cdp.parent_address;
    let is_pool = cdp.is_pool_unit_collateral;
    lemma_col_update(pre, post, cii, newinfo);
    if is_pool {
        lemma_pu_update(pre, post, pui, post.pool_units@[pui]);
    } else {
        lemma_same_pus(pre, post);
    }
    assert(post.wf_base()) by {
        assert forall|i: int| 0 <= i < post.cdps@.len() implies #[trigger] post.cdp_linked(
            i,
        ) by {
            if i < n {
                assert(pre.cdp_linked(i));
                assert(post.cdps@[i] == pre.cdps@[i]);
                let c = post.cdps@[i];
                assert(post.has_col(c.parent_address) == pre.has_col(c.parent_address));
                if c.is_pool_unit_collateral {
                    assert(pre.has_pu(c.collateral));
                    assert(post.has_pu(c.collateral));
                    if is_pool && c.collateral == b.resource {
                        assert(post.pu(c.collateral) == post.pool_units@[pui]);
                        assert(post.pu(c.collateral).parent_address == c.parent_address);
                    } else {
                        assert(post.pu(c.collateral) == pre.pu(c.collateral));
                    }
                }
            } else {
                assert(post.cdps@[i] == cdp);
                assert(post.has_col(parent));
                if is_pool {
                    assert(pre.has_pu(b.resource));
                    assert(post.has_pu(b.resource));
                    assert(post.pu(b.resource) == post.pool_units@[pui]);
                }
            }
        }
    }
}

#[verifier::rlimit(100)]
#[verifier::spinoff_prover]
proof fn open_commit_index(
    pre: Stabilis,
    post: Stabilis,
    b: Bucket,
    mint: i128,
    cii: int,
    pui: int,
    cdp: Cdp,
    cr: i128,
    id64: u64,
)
    requires
        pre.wf_base(),
        pre.wf_index(),
        open_rel(pre, post, b, mint, cii, pui, cdp, cr, id64),
    ensures
        post.wf_index(),
{
    let n = pre.cdps@.len() as int;
    let newinfo = post.collaterals@[cii];
    let parent = cdp.parent_address;
    let is_pool = cdp.is_pool_unit_collateral;
    lemma_col_update(pre, post, cii, newinfo);
    if is_pool {
        lemma_pu_update(pre, post, pui, post.pool_units@[pui]);
    } else {
        lemma_same_pus(pre, post);
    }
    assert(post.wf_index()) by {
        assert forall|ci2: int, cr2: i128, id2: u64|
            0 <= ci2 < post.collaterals@.len()
                && (#[trigger] post.collaterals@[ci2].ratios.contains_id(cr2, id2))
                implies post.has_cdp(id2) && post.cdp_of(id2).status == CdpStatus::Healthy
            && post.cdp_of(id2).parent_address == post.collaterals@[ci2].resource_address
            && post.cdp_of(id2).collateral_stab_ratio == cr2 by {
            if ci2 == cii {
                if cr2 == cr && id2 == id64 {
                    assert(post.cdp_of(id64) == cdp);
                } else {
                    assert(pre.collaterals@[ci2].ratios.contains_id(cr2, id2));
                    assert(post.cdps@[id2 - 1] == pre.cdps@[id2 - 1]);
                }
            } else {
                assert(post.collaterals@[ci2] == pre.collaterals@[ci2]);
                assert(pre.collaterals@[ci2].ratios.contains_id(cr2, id2));
                assert(post.cdps@[id2 - 1] == pre.cdps@[id2 - 1]);
            }
        }
        assert forall|i: int|
            0 <= i < post.cdps@.len() && (#[trigger] post.cdps@[i]).status == CdpStatus::Healthy
                implies post.has_col(post.cdps@[i].parent_address) && post.col(
            post.cdps@[i].parent_address,
        ).ratios.contains_id(post.cdps@[i].collateral_stab_ratio, (i + 1) as u64) by {
            if i < n {
                assert(post.cdps@[i] == pre.cdps@[i]);
                let pa = pre.cdps@[i].parent_address;
                assert(pre.has_col(pa) && pre.col(pa).ratios.contains_id(
                    pre.cdps@[i].collateral_stab_ratio,
                    (i + 1) as u64,
                ));
                if pa == parent {
                    assert(post.col(pa).ratios == newinfo.ratios);
                } else {
                    assert(post.col(pa) == pre.col(pa));
                }
            } else {
                assert(post.cdps@[i] == cdp);
                assert(post.col(parent).ratios.contains_id(cr, id64));
            }
        }
    }
}

/// Appending a position that is not marked leaves the marker
/// invariants intact.
#[verifier::spinoff_prover]
pub proof fn lemma_marks_push(pre: Stabilis, post: Stabilis, cdp: Cdp)
    requires
        pre.wf_marks(),
        cdp.status != CdpStatus::Marked,
        post.cdps@ == pre.cdps@.push(cdp),
        post.markers@ == pre.markers@,
        post.marked_cdps == pre.marked_cdps,
        post.marker_placing_counter == pre.marker_placing_counter,
    ensures
        post.wf_marks(),
{
    let n = pre.cdps@.len() as int;
    assert forall|i: int| 0 <= i < post.cdps@.len() implies #[trigger] post.marked_cdp_ok(i) by {
        assert(i < n ==> pre.marked_cdp_ok(i));
        assert(i < n ==> post.cdps@[i] == pre.cdps@[i]);
        assert(i == n ==> post.cdps@[i] == cdp);
    }
    assert forall|m: int| 0 <= m < post.markers@.len() implies #[trigger] post.marker_ok(m) by {
        assert(pre.marker_ok(m));
        let id = pre.markers@[m].marked_id;
        if pre.markers@[m].mark_type == CdpUpdate::Marked && !pre.markers@[m].used {
            assert(post.cdps@[id - 1] == pre.cdps@[id - 1]);
        }
    }
    assert forall|p: i128|
        post.marked_cdps.contains_placing(p) implies #[trigger] post.placing_ok(p) by {
        assert(pre.placing_ok(p));
        let id = pre.marked_cdps.id_at(p);
        assert(post.cdps@[id - 1] == pre.cdps@[id - 1]);
    }
}

/// Marker invariants carry over unchanged marker and position state.
#[verifier::spinoff_prover]
pub proof fn lemma_marks_same(pre: Stabilis, post: Stabilis)
    requires
        pre.wf_marks(),
        post.cdps@ == pre.cdps@,
        post.markers@ == pre.markers@,
        post.marked_cdps == pre.marked_cdps,
        post.marker_placing_counter == pre.marker_placing_counter,
    ensures
        post.wf_marks(),
{
    assert forall|i: int| 0 <= i < post.cdps@.len() implies #[trigger] post.marked_cdp_ok(i) by {
        assert(pre.marked_cdp_ok(i));
    }
    assert forall|m: int| 0 <= m < post.markers@.len() implies #[trigger] post.marker_ok(m) by {
        assert(pre.marker_ok(m));
    }
    assert forall|p: i128|
        post.marked_cdps.contains_placing(p) implies #[trigger] post.placing_ok(p) by {
        assert(pre.placing_ok(p));
    }
}
#[verifier::rlimit(100)]
#[verifier::spinoff_prover]
proof fn open_commit_sums(
    pre: Stabilis,
    post: Stabilis,
    b: Bucket,
    mint: i128,
    cii: int,
    pui: int,
    cdp: Cdp,
    cr: i128,
    id64: u64,
)
    requires
        pre.wf_base(),
        pre.wf_sums(),
        open_rel(pre, post, b, mint, cii, pui, cdp, cr, id64),
    ensures
        post.wf_sums(),
{
    let n = pre.cdps@.len() as int;
    let newinfo = post.collaterals@[cii];
    let parent = cdp.parent_address;
    let is_pool = cdp.is_pool_unit_collateral;
    lemma_col_update(pre, post, cii, newinfo);
    if is_pool {
        lemma_pu_update(pre, post, pui, post.pool_units@[pui]);
    } else {
        lemma_same_pus(pre, post);
    }
    assert(post.wf_sums()) by {
        assert forall|i: int|
            0 <= i < post.collaterals@.len()
                implies (#[trigger] post.collaterals@[i]).minted_stab as int == sum_map(
            post.cdps@,
            debt_w(post.collaterals@[i].resource_address),
        ) && post.collaterals@[i].vault as int == sum_map(
            post.cdps@,
            vault_w(post.collaterals@[i].resource_address),
        ) by {
            let addr = post.collaterals@[i].resource_address;
            lemma_sum_map_push(pre.cdps@, cdp, debt_w(addr));
            lemma_sum_map_push(pre.cdps@, cdp, vault_w(addr));
            assert(addr == pre.collaterals@[i].resource_address);
            if i != cii {
                assert(post.collaterals@[i] == pre.collaterals@[i]);
                assert(addr != parent) by {
                    if i < cii {
                        assert(pre.collaterals@[i].resource_address
                            != pre.collaterals@[cii].resource_address);
                    } else {
                        assert(pre.collaterals@[cii].resource_address
                            != pre.collaterals@[i].resource_address);
                    }
                }
                assert((debt_w(addr))(cdp) == 0);
                assert((vault_w(addr))(cdp) == 0);
            } else {
                assert((debt_w(addr))(cdp) == mint as int);
                if is_pool {
                    assert((vault_w(addr))(cdp) == 0);
                } else {
                    assert((vault_w(addr))(cdp) == b.amount as int);
                }
            }
        }
        assert forall|i: int|
            0 <= i < post.pool_units@.len()
                implies (#[trigger] post.pool_units@[i]).minted_stab as int == sum_map(
            post.cdps@,
            pu_debt_w(post.pool_units@[i].address),
        ) && post.pool_units@[i].vault as int == sum_map(
            post.cdps@,
            pu_vault_w(post.pool_units@[i].address),
        ) by {
            let addr = post.pool_units@[i].address;
            lemma_sum_map_push(pre.cdps@, cdp, pu_debt_w(addr));
            lemma_sum_map_push(pre.cdps@, cdp, pu_vault_w(addr));
            assert(addr == pre.pool_units@[i].address);
            if !is_pool {
                assert(post.pool_units@[i] == pre.pool_units@[i]);
                assert((pu_debt_w(addr))(cdp) == 0);
                assert((pu_vault_w(addr))(cdp) == 0);
            } else {
                if i != pui {
                    assert(post.pool_units@[i] == pre.pool_units@[i]);
                    assert(addr != b.resource) by {
                        if i < pui {
                            assert(pre.pool_units@[i].address
                                != pre.pool_units@[pui].address);
                        } else {
                            assert(pre.pool_units@[pui].address
                                != pre.pool_units@[i].address);
                        }
                    }
                    assert((pu_debt_w(addr))(cdp) == 0);
                    assert((pu_vault_w(addr))(cdp) == 0);
                } else {
                    assert((pu_debt_w(addr))(cdp) == mint as int);
                    assert((pu_vault_w(addr))(cdp) == b.amount as int);
                }
            }
        }
        lemma_sum_map_update(pre.collaterals@, cii, newinfo, col_minted_w());
    }
}

/// The commit step of `open_cdp` keeps the engine well-formed.
#[verifier::rlimit(100)]
#[verifier::spinoff_prover]
pub proof fn open_commit_wf(
    pre: Stabilis,
    post: Stabilis,
    b: Bucket,
    mint: i128,
    cii: int,
    pui: int,
    cdp: Cdp,
    cr: i128,
    id64: u64,
)
    requires
        pre.wf(),
        open_rel(pre, post, b, mint, cii, pui, cdp, cr, id64),
    ensures
        post.wf(),
{
    open_commit_base(pre, post, b, mint, cii, pui, cdp, cr, id64);
    open_commit_index(pre, post, b, mint, cii, pui, cdp, cr, id64);
    lemma_marks_push(pre, post, cdp);
    open_commit_sums(pre, post, b, mint, cii, pui, cdp, cr, id64);
}

/// The totals of a position's parent collateral cover the position's
/// own debt and stored collateral.
pub proof fn lemma_debt_bounds(pre: Stabilis, id: u64, cii: int)
    requires
        pre.wf(),
        pre.has_cdp(id),
        0 <= cii < pre.collaterals@.len(),
        pre.collaterals@[cii].resource_address == pre.cdps@[id - 1].parent_address,
    ensures
        is_live(pre.cdps@[id - 1]) ==> pre.collaterals@[cii].minted_stab >= pre.cdps@[id
            - 1].minted_stab,
        is_live(pre.cdps@[id - 1]) ==> pre.circulating_stab >= pre.cdps@[id - 1].minted_stab,
        pre.circulating_stab >= pre.collaterals@[cii].minted_stab,
        !pre.cdps@[id - 1].is_pool_unit_collateral ==> pre.collaterals@[cii].vault
            >= pre.cdps@[id - 1].collateral_amount,
{
    let parent = pre.cdps@[id - 1].parent_address;
    assert(pre.cdp_linked(id - 1));
    assert forall|j: int| 0 <= j < pre.cdps@.len() implies (debt_w(parent))(pre.cdps@[j]) >= 0
        && (vault_w(parent))(pre.cdps@[j]) >= 0 by {
        assert((#[trigger] pre.cdps@[j]).minted_stab >= 0 && pre.cdps@[j].collateral_amount
            >= 0);
    }
    lemma_sum_map_ge_elem(pre.cdps@, debt_w(parent), id - 1);
    if !pre.cdps@[id - 1].is_pool_unit_collateral {
        assert(pre.cdps@[id - 1].collateral == parent);
        lemma_sum_map_ge_elem(pre.cdps@, vault_w(parent), id - 1);
    }
    assert forall|j: int|
        0 <= j < pre.collaterals@.len() implies (col_minted_w())(pre.collaterals@[j]) >= 0 by {
        assert((#[trigger] pre.collaterals@[j]).minted_stab >= 0);
    }
    lemma_sum_map_ge_elem(pre.collaterals@, col_minted_w(), cii);
}

/// The totals of a pool-unit collateral cover each of its positions.
pub proof fn lemma_pu_debt_bounds(pre: Stabilis, id: u64, pui: int)
    requires
        pre.wf(),
        pre.has_cdp(id),
        pre.cdps@[id - 1].is_pool_unit_collateral,
        0 <= pui < pre.pool_units@.len(),
        pre.pool_units@[pui].address == pre.cdps@[id - 1].collateral,
    ensures
        is_live(pre.cdps@[id - 1]) ==> pre.pool_units@[pui].minted_stab >= pre.cdps@[id
            - 1].minted_stab,
        pre.pool_units@[pui].vault >= pre.cdps@[id - 1].collateral_amount,
{
    let res = pre.cdps@[id - 1].collateral;
    assert forall|j: int| 0 <= j < pre.cdps@.len() implies (pu_debt_w(res))(pre.cdps@[j]) >= 0
        && (pu_vault_w(res))(pre.cdps@[j]) >= 0 by {
        assert((#[trigger] pre.cdps@[j]).minted_stab >= 0 && pre.cdps@[j].collateral_amount
            >= 0);
    }
    lemma_sum_map_ge_elem(pre.cdps@, pu_debt_w(res), id - 1);
    lemma_sum_map_ge_elem(pre.cdps@, pu_vault_w(res), id - 1);
}

/// Splitting a liquidated position's collateral by fine shares never
/// pays out more than the position holds: each share is a truncating
/// fraction of the whole and the fractions sum below one.
pub proof fn lemma_payout_le(a: int, p: int, x1: int, x2: int)
    requires
        a >= 0,
        p > 0,
        x1 >= 0,
        x2 >= 0,
        x1 + x2 <= p,
    ensures
        mul_fp(x1, div_fp(a, p)) >= 0,
        mul_fp(x2, div_fp(a, p)) >= 0,
        mul_fp(x1, div_fp(a, p)) + mul_fp(x2, div_fp(a, p)) <= a,
        div_fp(a, p) >= 0,
{
    let s = SCALE as int;
    let d = div_fp(a, p);
    lemma_div_fp_nonneg(a, p);
    lemma_mul_fp_nonneg(x1, d);
    lemma_mul_fp_nonneg(x2, d);
    assert(d == (a * s) / p);
    assert(p * d <= a * s) by (nonlinear_arith)
        requires
            p > 0,
            a * s >= 0,
            d == (a * s) / p,
    ;
    assert(a * s >= 0) by (nonlinear_arith)
        requires
            a >= 0,
            s > 0,
    ;
    assert(mul_fp(x1, d) == (x1 * d) / s);
    assert(mul_fp(x2, d) == (x2 * d) / s);
    assert((x1 * d) / s + (x2 * d) / s <= ((x1 + x2) * d) / s) by (nonlinear_arith)
        requires
            s > 0,
            x1 >= 0,
            x2 >= 0,
            d >= 0,
    ;
    assert(((x1 + x2) * d) / s <= (p * d) / s) by (nonlinear_arith)
        requires
            s > 0,
            d >= 0,
            0 <= x1 + x2 <= p,
    ;
    assert((p * d) / s <= (a * s) / s) by (nonlinear_arith)
        requires
            s > 0,
            p * d <= a * s,
    ;
    assert((a * s) / s == a) by (nonlinear_arith)
        requires
            s > 0,
    ;
}

/// A sum of nonnegative weights is at least any single weight.
pub proof fn lemma_sum_map_ge_elem<T>(s: Seq<T>, f: spec_fn(T) -> int, i: int)
    requires
        forall|j: int| 0 <= j < s.len() ==> f(s[j]) >= 0,
        0 <= i < s.len(),
    ensures
        sum_map(s, f) >= f(s[i]),
    decreases s.len(),
{
    if i == s.len() - 1 {
        lemma_sum_map_nonneg(s.drop_last(), f);
    } else {
        lemma_sum_map_ge_elem(s.drop_last(), f, i);
        assert(f(s.last()) >= 0);
    }
}

/// How the commit step of an operation that rewrites one position
/// changes the state: the position updated in place, its ratio taken
/// out of and/or put back into the parent's index, the parent's and
/// pool unit's totals and vaults moved by the position's deltas.
pub open spec fn update_rel(
    pre: Stabilis,
    post: Stabilis,
    id: u64,
    newcdp: Cdp,
    cii: int,
    pui: int,
    do_rem: bool,
    rem_cr: i128,
    do_ins: bool,
    ins_cr: i128,
) -> bool {
    let oldcdp = pre.cdps@[id - 1];
    let oldc = pre.collaterals@[cii];
    let newc = post.collaterals@[cii];
    let parent = oldcdp.parent_address;
    &&& pre.has_cdp(id)
    &&& 0 <= cii < pre.collaterals@.len()
    &&& oldc.resource_address == parent
    &&& newcdp.collateral == oldcdp.collateral
    &&& newcdp.parent_address == oldcdp.parent_address
    &&& newcdp.is_pool_unit_collateral == oldcdp.is_pool_unit_collateral
    &&& newcdp.collateral_amount >= 0
    &&& newcdp.minted_stab >= 0
    &&& newcdp.collateral_stab_ratio >= 0
    &&& post.cdps@ == pre.cdps@.update(id - 1, newcdp)
    &&& post.collaterals@ == pre.collaterals@.update(cii, newc)
    &&& newc.resource_address == oldc.resource_address
    &&& newc.minted_stab as int == oldc.minted_stab as int + (debt_w(parent))(newcdp) - (debt_w(
        parent,
    ))(oldcdp)
    &&& newc.treasury >= 0
    &&& newc.vault as int == oldc.vault as int + (vault_w(parent))(newcdp) - (vault_w(parent))(
        oldcdp,
    )
    &&& newc.ratios.wf()
    &&& (forall|k: i128, j: u64|
        newc.ratios.contains_id(k, j) <==> ((oldc.ratios.contains_id(k, j) && !(do_rem && k
            == rem_cr && j == id)) || (do_ins && k == ins_cr && j == id)))
    &&& (do_rem <==> oldcdp.status == CdpStatus::Healthy)
    &&& (do_rem ==> rem_cr == oldcdp.collateral_stab_ratio)
    &&& (do_ins <==> newcdp.status == CdpStatus::Healthy)
    &&& (do_ins ==> ins_cr == newcdp.collateral_stab_ratio)
    &&& (if oldcdp.is_pool_unit_collateral {
        &&& 0 <= pui < pre.pool_units@.len()
        &&& pre.pool_units@[pui].address == oldcdp.collateral
        &&& post.pool_units@ == pre.pool_units@.update(pui, post.pool_units@[pui])
        &&& post.pool_units@[pui].address == pre.pool_units@[pui].address
        &&& post.pool_units@[pui].parent_address == pre.pool_units@[pui].parent_address
        &&& post.pool_units@[pui].minted_stab as int == pre.pool_units@[pui].minted_stab as int
            + (pu_debt_w(oldcdp.collateral))(newcdp) - (pu_debt_w(oldcdp.collateral))(oldcdp)
        &&& post.pool_units@[pui].vault as int == pre.pool_units@[pui].vault as int + (pu_vault_w(
            oldcdp.collateral,
        ))(newcdp) - (pu_vault_w(oldcdp.collateral))(oldcdp)
        &&& post.pool_units@[pui].treasury >= 0
        &&& post.pool_units@[pui].redemption_rate >= 0
    } else {
        post.pool_units@ == pre.pool_units@
    })
    &&& post.circulating_stab as int == pre.circulating_stab as int + (if is_live(newcdp) {
        newcdp.minted_stab as int
    } else {
        0
    }) - (if is_live(oldcdp) {
        oldcdp.minted_stab as int
    } else {
        0
    })
    &&& post.marked_cdps.wf()
    &&& post.marked_cdps_active == post.marked_cdps.entries@.len()
    &&& post.marker_placing_counter == post.markers@.len() * (SCALE as int)
    &&& post.markers@.len() < u64::MAX
    &&& post.receipts@.len() < u64::MAX
    &&& post.parameters == pre.parameters
}

/// Rewriting one position while no marker changes: neither the old nor
/// the new state of the position is marked.
#[verifier::spinoff_prover]
pub proof fn lemma_marks_update(pre: Stabilis, post: Stabilis, id: u64, newcdp: Cdp)
    requires
        pre.wf_marks(),
        pre.has_cdp(id),
        pre.cdps@[id - 1].status != CdpStatus::Marked,
        newcdp.status != CdpStatus::Marked,
        post.cdps@ == pre.cdps@.update(id - 1, newcdp),
        post.markers@ == pre.markers@,
        post.marked_cdps == pre.marked_cdps,
        post.marker_placing_counter == pre.marker_placing_counter,
    ensures
        post.wf_marks(),
{
    assert forall|i: int| 0 <= i < post.cdps@.len() implies #[trigger] post.marked_cdp_ok(i) by {
        assert(pre.marked_cdp_ok(i));
        assert(i != id - 1 ==> post.cdps@[i] == pre.cdps@[i]);
    }
    assert forall|m: int| 0 <= m < post.markers@.len() implies #[trigger] post.marker_ok(m) by {
        assert(pre.marker_ok(m));
        let mid = pre.markers@[m].marked_id;
        if pre.markers@[m].mark_type == CdpUpdate::Marked && !pre.markers@[m].used {
            assert(pre.cdp_of(mid).status == CdpStatus::Marked);
            assert(mid != id);
            assert(post.cdps@[mid - 1] == pre.cdps@[mid - 1]);
        }
    }
    assert forall|p: i128|
        post.marked_cdps.contains_placing(p) implies #[trigger] post.placing_ok(p) by {
        assert(pre.placing_ok(p));
        let mid = pre.marked_cdps.id_at(p);
        assert(pre.cdp_of(mid).status == CdpStatus::Marked);
        assert(mid != id);
        assert(post.cdps@[mid - 1] == pre.cdps@[mid - 1]);
    }
}

/// Resolving a mark: the position leaves the marked state, its marker
/// is consumed, its entry leaves the marked index.
#[verifier::rlimit(100)]
#[verifier::spinoff_prover]
pub proof fn lemma_marks_unmark(pre: Stabilis, post: Stabilis, id: u64, newcdp: Cdp)
    requires
        pre.wf_marks(),
        pre.has_cdp(id),
        pre.cdps@[id - 1].status == CdpStatus::Marked,
        newcdp.status != CdpStatus::Marked,
        post.cdps@ == pre.cdps@.update(id - 1, newcdp),
        pre.has_marker(pre.cdps@[id - 1].marker_id),
        post.markers@ == pre.markers@.update(
            pre.cdps@[id - 1].marker_id - 1,
            CdpMarker { used: true, ..pre.marker_of(pre.cdps@[id - 1].marker_id) },
        ),
        post.marked_cdps.wf(),
        forall|q: i128|
            post.marked_cdps.contains_placing(q) <==> (pre.marked_cdps.contains_placing(q) && q
                != pre.marker_of(pre.cdps@[id - 1].marker_id).marker_placing),
        forall|q: i128|
            q != pre.marker_of(pre.cdps@[id - 1].marker_id).marker_placing
                && pre.marked_cdps.contains_placing(q) ==> post.marked_cdps.id_at(q)
                == pre.marked_cdps.id_at(q),
        post.marker_placing_counter == pre.marker_placing_counter,
    ensures
        post.wf_marks(),
{
    let mid = pre.cdps@[id - 1].marker_id;
    let p0 = pre.marker_of(mid).marker_placing;
    assert(pre.marked_cdp_ok(id - 1));
    assert forall|i: int| 0 <= i < post.cdps@.len() implies #[trigger] post.marked_cdp_ok(i) by {
        assert(pre.marked_cdp_ok(i));
        if i != id - 1 {
            assert(post.cdps@[i] == pre.cdps@[i]);
            if pre.cdps@[i].status == CdpStatus::Marked {
                let mid2 = pre.cdps@[i].marker_id;
                assert(pre.marker_of(mid2).marked_id == i + 1);
                assert(mid2 != mid) by {
                    if mid2 == mid {
                        assert(pre.marker_of(mid).marked_id == id);
                    }
                }
                assert(post.marker_of(mid2) == pre.marker_of(mid2));
                assert(pre.marker_of(mid2).marker_placing != p0) by {
                    if mid2 - 1 < mid - 1 {
                        assert(pre.markers@[mid2 - 1].marker_placing < pre.markers@[mid
                            - 1].marker_placing);
                    } else {
                        assert(pre.markers@[mid - 1].marker_placing < pre.markers@[mid2
                            - 1].marker_placing);
                    }
                }
            }
        }
    }
    assert forall|m: int| 0 <= m < post.markers@.len() implies #[trigger] post.marker_ok(m) by {
        assert(pre.marker_ok(m));
        if m != mid - 1 {
            assert(post.markers@[m] == pre.markers@[m]);
            if pre.markers@[m].mark_type == CdpUpdate::Marked && !pre.markers@[m].used {
                let id2 = pre.markers@[m].marked_id;
                assert(pre.cdp_of(id2).marker_id == m + 1);
                assert(id2 != id) by {
                    if id2 == id {
                        assert(pre.cdp_of(id).marker_id == mid);
                    }
                }
                assert(post.cdps@[id2 - 1] == pre.cdps@[id2 - 1]);
            }
        }
    }
    assert forall|p: i128|
        post.marked_cdps.contains_placing(p) implies #[trigger] post.placing_ok(p) by {
        assert(pre.marked_cdps.contains_placing(p) && p != p0);
        assert(pre.placing_ok(p));
        let id2 = pre.marked_cdps.id_at(p);
        assert(pre.cdp_of(id2).status == CdpStatus::Marked);
        let mid2 = pre.cdp_of(id2).marker_id;
        assert(pre.marker_of(mid2).marker_placing == p);
        assert(mid2 != mid) by {
            if mid2 == mid {
                assert(pre.marker_of(mid).marker_placing == p0);
            }
        }
        assert(pre.marked_cdp_ok(id2 - 1));
        assert(pre.marker_of(mid2).marked_id == id2);
        assert(id2 != id) by {
            if id2 == id {
                assert(pre.cdp_of(id).marker_id == mid);
            }
        }
        assert(post.cdps@[id2 - 1] == pre.cdps@[id2 - 1]);
        assert(post.marker_of(mid2) == pre.marker_of(mid2));
        assert(post.marked_cdps.id_at(p) == pre.marked_cdps.id_at(p));
    }
    assert forall|i: int, j: int|
        0 <= i < j < post.markers@.len() implies post.markers@[i].marker_placing
        < post.markers@[j].marker_placing by {
        assert(pre.markers@[i].marker_placing < pre.markers@[j].marker_placing);
    }
    assert forall|i: int|
        0 <= i < post.markers@.len() implies 0 < (#[trigger] post.markers@[i]).marker_placing
        <= post.marker_placing_counter by {
        assert(0 < pre.markers@[i].marker_placing <= pre.marker_placing_counter);
    }
}

/// Marking a healthy position: a fresh unused marker and a fresh entry
/// of the marked index point at it.
#[verifier::rlimit(100)]
#[verifier::spinoff_prover]
pub proof fn lemma_marks_mark(pre: Stabilis, post: Stabilis, id: u64, newcdp: Cdp, m1: CdpMarker)
    requires
        pre.wf_marks(),
        pre.has_cdp(id),
        pre.cdps@[id - 1].status == CdpStatus::Healthy,
        newcdp.status == CdpStatus::Marked,
        newcdp.marker_id == pre.markers@.len() + 1,
        post.cdps@ == pre.cdps@.update(id - 1, newcdp),
        m1.mark_type == CdpUpdate::Marked,
        !m1.used,
        m1.marked_id == id,
        m1.marker_placing == pre.marker_placing_counter + SCALE,
        post.markers@ == pre.markers@.push(m1),
        post.marker_placing_counter == pre.marker_placing_counter + SCALE,
        pre.marker_placing_counter == pre.markers@.len() * (SCALE as int),
        post.marked_cdps.entries@ == pre.marked_cdps.entries@.push(
            crate::index::MarkedEntry { placing: m1.marker_placing, cdp_id: id },
        ),
        forall|p: i128|
            post.marked_cdps.contains_placing(p) <==> (pre.marked_cdps.contains_placing(p) || p
                == m1.marker_placing),
        post.marked_cdps.id_at(m1.marker_placing) == id,
        forall|p: i128|
            p != m1.marker_placing && pre.marked_cdps.contains_placing(p)
                ==> post.marked_cdps.id_at(p) == pre.marked_cdps.id_at(p),
    ensures
        post.wf_marks(),
{
    let n = pre.markers@.len() as int;
    let p1 = m1.marker_placing;
    assert(p1 > pre.marker_placing_counter);
    assert forall|i: int| 0 <= i < post.cdps@.len() implies #[trigger] post.marked_cdp_ok(i) by {
        if i == id - 1 {
            assert(post.cdps@[i] == newcdp);
            assert(post.marker_of((n + 1) as u64) == m1);
            assert(post.marked_cdps.contains_placing(p1));
        } else {
            assert(pre.marked_cdp_ok(i));
            assert(post.cdps@[i] == pre.cdps@[i]);
            if pre.cdps@[i].status == CdpStatus::Marked {
                let mid2 = pre.cdps@[i].marker_id;
                assert(post.marker_of(mid2) == pre.marker_of(mid2));
                assert(pre.marker_of(mid2).marker_placing <= pre.marker_placing_counter);
                assert(pre.marker_of(mid2).marker_placing != p1);
            }
        }
    }
    assert forall|m: int| 0 <= m < post.markers@.len() implies #[trigger] post.marker_ok(m) by {
        if m == n {
            assert(post.markers@[m] == m1);
            assert(post.cdp_of(id) == newcdp);
        } else {
            assert(pre.marker_ok(m));
            assert(post.markers@[m] == pre.markers@[m]);
            if pre.markers@[m].mark_type == CdpUpdate::Marked && !pre.markers@[m].used {
                let id2 = pre.markers@[m].marked_id;
                assert(pre.cdp_of(id2).status == CdpStatus::Marked);
                assert(id2 != id);
                assert(post.cdps@[id2 - 1] == pre.cdps@[id2 - 1]);
            }
        }
    }
    assert forall|p: i128|
        post.marked_cdps.contains_placing(p) implies #[trigger] post.placing_ok(p) by {
        if p == p1 {
            assert(post.marked_cdps.id_at(p1) == id);
            assert(post.cdp_of(id) == newcdp);
            assert(post.marker_of((n + 1) as u64) == m1);
        } else {
            assert(pre.marked_cdps.contains_placing(p));
            assert(pre.placing_ok(p));
            let id2 = pre.marked_cdps.id_at(p);
            assert(pre.cdp_of(id2).status == CdpStatus::Marked);
            assert(id2 != id);
            assert(post.cdps@[id2 - 1] == pre.cdps@[id2 - 1]);
            let mid2 = pre.cdp_of(id2).marker_id;
            assert(pre.marked_cdp_ok(id2 - 1));
            assert(post.marker_of(mid2) == pre.marker_of(mid2));
            assert(post.marked_cdps.id_at(p) == pre.marked_cdps.id_at(p));
        }
    }
    assert forall|i: int, j: int|
        0 <= i < j < post.markers@.len() implies post.markers@[i].marker_placing
        < post.markers@[j].marker_placing by {
        if j < n {
            assert(pre.markers@[i].marker_placing < pre.markers@[j].marker_placing);
        } else {
            assert(pre.markers@[i].marker_placing <= pre.marker_placing_counter);
        }
    }
    assert forall|i: int|
        0 <= i < post.markers@.len() implies 0 < (#[trigger] post.markers@[i]).marker_placing
        <= post.marker_placing_counter by {
        if i < n {
            assert(0 < pre.markers@[i].marker_placing <= pre.marker_placing_counter);
        }
    }
}

/// Marking then saving in one stroke: the position stays healthy, one
/// consumed marking marker and one save marker are minted.
#[verifier::rlimit(100)]
#[verifier::spinoff_prover]
pub proof fn lemma_marks_savemark(
    pre: Stabilis,
    post: Stabilis,
    id: u64,
    newcdp: Cdp,
    m1: CdpMarker,
    m2: CdpMarker,
)
    requires
        pre.wf_marks(),
        pre.has_cdp(id),
        pre.cdps@[id - 1].status != CdpStatus::Marked,
        newcdp.status != CdpStatus::Marked,
        post.cdps@ == pre.cdps@.update(id - 1, newcdp),
        m1.used,
        m2.mark_type == CdpUpdate::Saved,
        m1.marker_placing == pre.marker_placing_counter + SCALE,
        m2.marker_placing == pre.marker_placing_counter + 2 * SCALE,
        post.markers@ == pre.markers@.push(m1).push(m2),
        post.marker_placing_counter == pre.marker_placing_counter + 2 * SCALE,
        pre.marker_placing_counter == pre.markers@.len() * (SCALE as int),
        post.marked_cdps == pre.marked_cdps,
    ensures
        post.wf_marks(),
{
    let n = pre.markers@.len() as int;
    assert forall|i: int| 0 <= i < post.cdps@.len() implies #[trigger] post.marked_cdp_ok(i) by {
        assert(pre.marked_cdp_ok(i));
        if i != id - 1 {
            assert(post.cdps@[i] == pre.cdps@[i]);
            if pre.cdps@[i].status == CdpStatus::Marked {
                let mid2 = pre.cdps@[i].marker_id;
                assert(post.marker_of(mid2) == pre.marker_of(mid2));
            }
        }
    }
    assert forall|m: int| 0 <= m < post.markers@.len() implies #[trigger] post.marker_ok(m) by {
        if m < n {
            assert(pre.marker_ok(m));
            assert(post.markers@[m] == pre.markers@[m]);
            if pre.markers@[m].mark_type == CdpUpdate::Marked && !pre.markers@[m].used {
                let id2 = pre.markers@[m].marked_id;
                assert(pre.cdp_of(id2).status == CdpStatus::Marked);
                assert(id2 != id);
                assert(post.cdps@[id2 - 1] == pre.cdps@[id2 - 1]);
            }
        } else if m == n {
            assert(post.markers@[m] == m1);
        } else {
            assert(post.markers@[m] == m2);
        }
    }
    assert forall|p: i128|
        post.marked_cdps.contains_placing(p) implies #[trigger] post.placing_ok(p) by {
        assert(pre.placing_ok(p));
        let id2 = pre.marked_cdps.id_at(p);
        assert(pre.cdp_of(id2).status == CdpStatus::Marked);
        assert(id2 != id);
        assert(post.cdps@[id2 - 1] == pre.cdps@[id2 - 1]);
        let mid2 = pre.cdp_of(id2).marker_id;
        assert(pre.marked_cdp_ok(id2 - 1));
        assert(post.marker_of(mid2) == pre.marker_of(mid2));
    }
    assert forall|i: int, j: int|
        0 <= i < j < post.markers@.len() implies post.markers@[i].marker_placing
        < post.markers@[j].marker_placing by {
        if j < n {
            assert(pre.markers@[i].marker_placing < pre.markers@[j].marker_placing);
        } else if i < n {
            assert(pre.markers@[i].marker_placing <= pre.marker_placing_counter);
        }
    }
    assert forall|i: int|
        0 <= i < post.markers@.len() implies 0 < (#[trigger] post.markers@[i]).marker_placing
        <= post.marker_placing_counter by {
        if i < n {
            assert(0 < pre.markers@[i].marker_placing <= pre.marker_placing_counter);
        }
    }
}

/// Saving a marked position with a fresh save marker: the old marker
/// is consumed, the position leaves the marked index and state.
#[verifier::rlimit(100)]
#[verifier::spinoff_prover]
pub proof fn lemma_marks_save(
    pre: Stabilis,
    post: Stabilis,
    id: u64,
    newcdp: Cdp,
    m2: CdpMarker,
)
    requires
        pre.wf_marks(),
        pre.has_cdp(id),
        pre.cdps@[id - 1].status == CdpStatus::Marked,
        newcdp.status != CdpStatus::Marked,
        post.cdps@ == pre.cdps@.update(id - 1, newcdp),
        pre.has_marker(pre.cdps@[id - 1].marker_id),
        m2.mark_type == CdpUpdate::Saved,
        m2.marker_placing == pre.marker_placing_counter + SCALE,
        post.markers@ == pre.markers@.update(
            pre.cdps@[id - 1].marker_id - 1,
            CdpMarker { used: true, ..pre.marker_of(pre.cdps@[id - 1].marker_id) },
        ).push(m2),
        post.marker_placing_counter == pre.marker_placing_counter + SCALE,
        pre.marker_placing_counter == pre.markers@.len() * (SCALE as int),
        post.marked_cdps.wf(),
        forall|q: i128|
            post.marked_cdps.contains_placing(q) <==> (pre.marked_cdps.contains_placing(q) && q
                != pre.marker_of(pre.cdps@[id - 1].marker_id).marker_placing),
        forall|q: i128|
            q != pre.marker_of(pre.cdps@[id - 1].marker_id).marker_placing
                && pre.marked_cdps.contains_placing(q) ==> post.marked_cdps.id_at(q)
                == pre.marked_cdps.id_at(q),
    ensures
        post.wf_marks(),
{
    let mid = pre.cdps@[id - 1].marker_id;
    let p0 = pre.marker_of(mid).marker_placing;
    let n = pre.markers@.len() as int;
    assert(pre.marked_cdp_ok(id - 1));
    assert forall|i: int| 0 <= i < post.cdps@.len() implies #[trigger] post.marked_cdp_ok(i) by {
        assert(pre.marked_cdp_ok(i));
        if i != id - 1 {
            assert(post.cdps@[i] == pre.cdps@[i]);
            if pre.cdps@[i].status == CdpStatus::Marked {
                let mid2 = pre.cdps@[i].marker_id;
                assert(pre.marker_of(mid2).marked_id == i + 1);
                assert(mid2 != mid) by {
                    if mid2 == mid {
                        assert(pre.marker_of(mid).marked_id == id);
                    }
                }
                assert(post.marker_of(mid2) == pre.marker_of(mid2));
                assert(pre.marker_of(mid2).marker_placing != p0) by {
                    if mid2 - 1 < mid - 1 {
                        assert(pre.markers@[mid2 - 1].marker_placing < pre.markers@[mid
                            - 1].marker_placing);
                    } else {
                        assert(pre.markers@[mid - 1].marker_placing < pre.markers@[mid2
                            - 1].marker_placing);
                    }
                }
            }
        }
    }
    assert forall|m: int| 0 <= m < post.markers@.len() implies #[trigger] post.marker_ok(m) by {
        if m == n {
            assert(post.markers@[m] == m2);
        } else if m == mid - 1 {
            assert(post.markers@[m].used);
        } else {
            assert(pre.marker_ok(m));
            assert(post.markers@[m] == pre.markers@[m]);
            if pre.markers@[m].mark_type == CdpUpdate::Marked && !pre.markers@[m].used {
                let id2 = pre.markers@[m].marked_id;
                assert(pre.cdp_of(id2).marker_id == m + 1);
                assert(id2 != id) by {
                    if id2 == id {
                        assert(pre.cdp_of(id).marker_id == mid);
                    }
                }
                assert(post.cdps@[id2 - 1] == pre.cdps@[id2 - 1]);
            }
        }
    }
    assert forall|p: i128|
        post.marked_cdps.contains_placing(p) implies #[trigger] post.placing_ok(p) by {
        assert(pre.marked_cdps.contains_placing(p) && p != p0);
        assert(pre.placing_ok(p));
        let id2 = pre.marked_cdps.id_at(p);
        assert(pre.cdp_of(id2).status == CdpStatus::Marked);
        let mid2 = pre.cdp_of(id2).marker_id;
        assert(pre.marker_of(mid2).marker_placing == p);
        assert(pre.marked_cdp_ok(id2 - 1));
        assert(mid2 != mid) by {
            if mid2 == mid {
                assert(pre.marker_of(mid).marker_placing == p0);
            }
        }
        assert(pre.marker_of(mid2).marked_id == id2);
        assert(id2 != id) by {
            if id2 == id {
                assert(pre.cdp_of(id).marker_id == mid);
            }
        }
        assert(post.cdps@[id2 - 1] == pre.cdps@[id2 - 1]);
        assert(post.marker_of(mid2) == pre.marker_of(mid2));
        assert(post.marked_cdps.id_at(p) == pre.marked_cdps.id_at(p));
    }
    assert forall|i: int, j: int|
        0 <= i < j < post.markers@.len() implies post.markers@[i].marker_placing
        < post.markers@[j].marker_placing by {
        if j < n {
            assert(pre.markers@[i].marker_placing < pre.markers@[j].marker_placing);
        } else if i < n {
            assert(0 < pre.markers@[i].marker_placing <= pre.marker_placing_counter);
        }
    }
    assert forall|i: int|
        0 <= i < post.markers@.len() implies 0 < (#[trigger] post.markers@[i]).marker_placing
        <= post.marker_placing_counter by {
        if i < n {
            assert(0 < pre.markers@[i].marker_placing <= pre.marker_placing_counter);
        }
    }
}

/// The placing counter stays representable while markers can be
/// numbered: it is the marker count at the fixed-point scale.
pub proof fn lemma_counter_fits(n: int, c: int)
    requires
        c == n * (SCALE as int),
        0 <= n,
        n + 2 < u64::MAX,
    ensures
        c + 2 * (SCALE as int) <= i128::MAX,
        c >= 0,
{
    assert(c + 2 * (SCALE as int) == (n + 2) * (SCALE as int)) by (nonlinear_arith)
        requires
            c == n * (SCALE as int),
    ;
    assert((n + 2) * (SCALE as int) <= (u64::MAX as int) * (SCALE as int)) by (nonlinear_arith)
        requires
            0 <= n + 2 <= u64::MAX as int,
    ;
    assert(c >= 0) by (nonlinear_arith)
        requires
            c == n * (SCALE as int),
            0 <= n,
    ;
}

/// Base well-formedness after a single-position rewrite.
#[verifier::rlimit(100)]
#[verifier::spinoff_prover]
proof fn update_commit_base(
    pre: Stabilis,
    post: Stabilis,
    id: u64,
    newcdp: Cdp,
    cii: int,
    pui: int,
    do_rem: bool,
    rem_cr: i128,
    do_ins: bool,
    ins_cr: i128,
)
    requires
        pre.wf_base(),
        pre.wf_sums(),
        update_rel(pre, post, id, newcdp, cii, pui, do_rem, rem_cr, do_ins, ins_cr),
    ensures
        post.wf_base(),
        forall|res: u64| #[trigger] post.has_col(res) == pre.has_col(res),
        forall|res: u64| #[trigger] pre.has_col(res) ==> post.col_ix(res) == pre.col_ix(res),
        forall|res: u64| #[trigger] post.has_pu(res) == pre.has_pu(res),
        forall|res: u64| #[trigger] pre.has_pu(res) ==> post.pu_ix(res) == pre.pu_ix(res),
{
    let oldcdp = pre.cdps@[id - 1];
    let is_pool = oldcdp.is_pool_unit_collateral;
    lemma_col_update(pre, post, cii, post.collaterals@[cii]);
    if is_pool {
        lemma_pu_update(pre, post, pui, post.pool_units@[pui]);
    } else {
        lemma_same_pus(pre, post);
    }
    assert(pre.cdp_linked(id - 1));
    assert forall|i: int| 0 <= i < post.cdps@.len() implies #[trigger] post.cdp_linked(i) by {
        assert(pre.cdp_linked(i));
        let c = post.cdps@[i];
        assert(i != id - 1 ==> c == pre.cdps@[i]);
        assert(i == id - 1 ==> (c.collateral == oldcdp.collateral && c.parent_address
            == oldcdp.parent_address && c.is_pool_unit_collateral
            == oldcdp.is_pool_unit_collateral));
        let oc = pre.cdps@[i];
        assert(post.has_col(oc.parent_address) == pre.has_col(oc.parent_address));
        if oc.is_pool_unit_collateral {
            assert(pre.has_pu(oc.collateral));
            assert(post.has_pu(oc.collateral));
            if is_pool && oc.collateral == oldcdp.collateral {
                assert(post.pu(oc.collateral) == post.pool_units@[pui]);
            } else {
                assert(post.pu(oc.collateral) == pre.pu(oc.collateral));
            }
        }
    }
    assert forall|i: int|
        0 <= i < post.cdps@.len() implies (#[trigger] post.cdps@[i]).collateral_amount >= 0
        && post.cdps@[i].minted_stab >= 0 && post.cdps@[i].collateral_stab_ratio >= 0 by {
        if i != id - 1 {
            assert(post.cdps@[i] == pre.cdps@[i]);
        }
    }
    assert forall|i: int|
        0 <= i < post.collaterals@.len() implies (#[trigger] post.collaterals@[i]).minted_stab
        >= 0 && post.collaterals@[i].vault >= 0 && post.collaterals@[i].treasury >= 0 by {
        if i != cii {
            assert(post.collaterals@[i] == pre.collaterals@[i]);
        } else {
            lemma_col_nonneg_after_update(pre, post, id, newcdp, cii);
        }
    }
    assert forall|i: int|
        0 <= i < post.pool_units@.len() implies (#[trigger] post.pool_units@[i]).minted_stab >= 0
        && post.pool_units@[i].vault >= 0 && post.pool_units@[i].treasury >= 0
        && post.pool_units@[i].redemption_rate >= 0 by {
        if is_pool && i == pui {
            lemma_pu_nonneg_after_update(pre, post, id, newcdp, pui);
        } else {
            assert(post.pool_units@[i] == pre.pool_units@[i]);
        }
    }
}

/// The updated collateral record's totals stay nonnegative: the sums
/// they equal bound each position's own contribution.
proof fn lemma_col_nonneg_after_update(
    pre: Stabilis,
    post: Stabilis,
    id: u64,
    newcdp: Cdp,
    cii: int,
)
    requires
        pre.wf_base(),
        pre.wf_sums(),
        pre.has_cdp(id),
        0 <= cii < pre.collaterals@.len(),
        pre.collaterals@[cii].resource_address == pre.cdps@[id - 1].parent_address,
        newcdp.minted_stab >= 0,
        newcdp.collateral_amount >= 0,
        post.collaterals@[cii].minted_stab as int == pre.collaterals@[cii].minted_stab as int + (
        debt_w(pre.cdps@[id - 1].parent_address))(newcdp) - (debt_w(
            pre.cdps@[id - 1].parent_address,
        ))(pre.cdps@[id - 1]),
        post.collaterals@[cii].vault as int == pre.collaterals@[cii].vault as int + (vault_w(
            pre.cdps@[id - 1].parent_address,
        ))(newcdp) - (vault_w(pre.cdps@[id - 1].parent_address))(pre.cdps@[id - 1]),
        post.collaterals@[cii].treasury >= 0,
    ensures
        post.collaterals@[cii].minted_stab >= 0,
        post.collaterals@[cii].vault >= 0,
        post.collaterals@[cii].treasury >= 0,
{
    let parent = pre.cdps@[id - 1].parent_address;
    assert forall|j: int| 0 <= j < pre.cdps@.len() implies (debt_w(parent))(pre.cdps@[j]) >= 0
        && (vault_w(parent))(pre.cdps@[j]) >= 0 by {
        assert((#[trigger] pre.cdps@[j]).minted_stab >= 0 && pre.cdps@[j].collateral_amount
            >= 0);
    }
    lemma_sum_map_ge_elem(pre.cdps@, debt_w(parent), id - 1);
    lemma_sum_map_ge_elem(pre.cdps@, vault_w(parent), id - 1);
    assert((debt_w(parent))(newcdp) >= 0);
    assert((vault_w(parent))(newcdp) >= 0);
}

/// The updated pool-unit record's totals stay nonnegative.
proof fn lemma_pu_nonneg_after_update(
    pre: Stabilis,
    post: Stabilis,
    id: u64,
    newcdp: Cdp,
    pui: int,
)
    requires
        pre.wf_base(),
        pre.wf_sums(),
        pre.has_cdp(id),
        0 <= pui < pre.pool_units@.len(),
        pre.pool_units@[pui].address == pre.cdps@[id - 1].collateral,
        newcdp.minted_stab >= 0,
        newcdp.collateral_amount >= 0,
        post.pool_units@[pui].minted_stab as int == pre.pool_units@[pui].minted_stab as int + (
        pu_debt_w(pre.cdps@[id - 1].collateral))(newcdp) - (pu_debt_w(
            pre.cdps@[id - 1].collateral,
        ))(pre.cdps@[id - 1]),
        post.pool_units@[pui].vault as int == pre.pool_units@[pui].vault as int + (pu_vault_w(
            pre.cdps@[id - 1].collateral,
        ))(newcdp) - (pu_vault_w(pre.cdps@[id - 1].collateral))(pre.cdps@[id - 1]),
        post.pool_units@[pui].treasury >= 0,
        post.pool_units@[pui].redemption_rate >= 0,
    ensures
        post.pool_units@[pui].minted_stab >= 0,
        post.pool_units@[pui].vault >= 0,
{
    let res = pre.cdps@[id - 1].collateral;
    assert forall|j: int| 0 <= j < pre.cdps@.len() implies (pu_debt_w(res))(pre.cdps@[j]) >= 0
        && (pu_vault_w(res))(pre.cdps@[j]) >= 0 by {
        assert((#[trigger] pre.cdps@[j]).minted_stab >= 0 && pre.cdps@[j].collateral_amount
            >= 0);
    }
    lemma_sum_map_ge_elem(pre.cdps@, pu_debt_w(res), id - 1);
    lemma_sum_map_ge_elem(pre.cdps@, pu_vault_w(res), id - 1);
    assert((pu_debt_w(res))(newcdp) >= 0);
    assert((pu_vault_w(res))(newcdp) >= 0);
}

/// Index agreement after a single-position rewrite.
#[verifier::rlimit(100)]
#[verifier::spinoff_prover]
proof fn update_commit_index(
    pre: Stabilis,
    post: Stabilis,
    id: u64,
    newcdp: Cdp,
    cii: int,
    pui: int,
    do_rem: bool,
    rem_cr: i128,
    do_ins: bool,
    ins_cr: i128,
)
    requires
        pre.wf_base(),
        pre.wf_index(),
        update_rel(pre, post, id, newcdp, cii, pui, do_rem, rem_cr, do_ins, ins_cr),
    ensures
        post.wf_index(),
{
    let oldcdp = pre.cdps@[id - 1];
    let parent = oldcdp.parent_address;
    lemma_col_update(pre, post, cii, post.collaterals@[cii]);
    assert forall|ci2: int, cr2: i128, id2: u64|
        0 <= ci2 < post.collaterals@.len()
            && (#[trigger] post.collaterals@[ci2].ratios.contains_id(cr2, id2))
            implies post.has_cdp(id2) && post.cdp_of(id2).status == CdpStatus::Healthy
        && post.cdp_of(id2).parent_address == post.collaterals@[ci2].resource_address
        && post.cdp_of(id2).collateral_stab_ratio == cr2 by {
        if ci2 == cii {
            if do_ins && cr2 == ins_cr && id2 == id {
                assert(post.cdp_of(id) == newcdp);
            } else {
                assert(pre.collaterals@[ci2].ratios.contains_id(cr2, id2));
                assert(pre.cdp_of(id2).status == CdpStatus::Healthy);
                if id2 == id {
                    assert(do_rem && rem_cr == oldcdp.collateral_stab_ratio);
                    assert(cr2 == oldcdp.collateral_stab_ratio);
                    assert(false);
                }
                assert(post.cdps@[id2 - 1] == pre.cdps@[id2 - 1]);
            }
        } else {
            assert(post.collaterals@[ci2] == pre.collaterals@[ci2]);
            assert(pre.collaterals@[ci2].ratios.contains_id(cr2, id2));
            if id2 == id {
                assert(pre.cdp_of(id2).parent_address == pre.collaterals@[ci2].resource_address);
                assert(pre.collaterals@[ci2].resource_address == parent);
                assert(ci2 == cii) by {
                    if ci2 < cii {
                        assert(pre.collaterals@[ci2].resource_address
                            != pre.collaterals@[cii].resource_address);
                    } else {
                        assert(pre.collaterals@[cii].resource_address
                            != pre.collaterals@[ci2].resource_address);
                    }
                }
                assert(false);
            }
            assert(post.cdps@[id2 - 1] == pre.cdps@[id2 - 1]);
        }
    }
    assert forall|i: int|
        0 <= i < post.cdps@.len() && (#[trigger] post.cdps@[i]).status == CdpStatus::Healthy
            implies post.has_col(post.cdps@[i].parent_address) && post.col(
        post.cdps@[i].parent_address,
    ).ratios.contains_id(post.cdps@[i].collateral_stab_ratio, (i + 1) as u64) by {
        if i == id - 1 {
            assert(post.cdps@[i] == newcdp);
            assert(do_ins && ins_cr == newcdp.collateral_stab_ratio);
            assert(pre.has_col(parent));
            assert(post.col(parent) == post.collaterals@[cii]) by {
                assert(pre.col_ix(parent) == cii) by {
                    let a = pre.col_ix(parent);
                    assert(pre.collaterals@[a].resource_address == parent);
                    if a < cii {
                        assert(pre.collaterals@[a].resource_address
                            != pre.collaterals@[cii].resource_address);
                    } else if cii < a {
                        assert(pre.collaterals@[cii].resource_address
                            != pre.collaterals@[a].resource_address);
                    }
                }
            }
            assert(post.collaterals@[cii].ratios.contains_id(ins_cr, id));
        } else {
            assert(post.cdps@[i] == pre.cdps@[i]);
            let pa = pre.cdps@[i].parent_address;
            assert(pre.has_col(pa) && pre.col(pa).ratios.contains_id(
                pre.cdps@[i].collateral_stab_ratio,
                (i + 1) as u64,
            ));
            if pa == parent {
                assert(post.col(pa) == post.collaterals@[cii]) by {
                    assert(pre.col_ix(pa) == cii) by {
                        let a = pre.col_ix(pa);
                        assert(pre.collaterals@[a].resource_address == pa);
                        if a < cii {
                            assert(pre.collaterals@[a].resource_address
                                != pre.collaterals@[cii].resource_address);
                        } else if cii < a {
                            assert(pre.collaterals@[cii].resource_address
                                != pre.collaterals@[a].resource_address);
                        }
                    }
                }
                assert(post.collaterals@[cii].ratios.contains_id(
                    pre.cdps@[i].collateral_stab_ratio,
                    (i + 1) as u64,
                ));
            } else {
                assert(post.col(pa) == pre.col(pa));
            }
        }
    }
}

/// Accounting sums after a single-position rewrite.
#[verifier::rlimit(100)]
#[verifier::spinoff_prover]
proof fn update_commit_sums(
    pre: Stabilis,
    post: Stabilis,
    id: u64,
    newcdp: Cdp,
    cii: int,
    pui: int,
    do_rem: bool,
    rem_cr: i128,
    do_ins: bool,
    ins_cr: i128,
)
    requires
        pre.wf_base(),
        pre.wf_sums(),
        update_rel(pre, post, id, newcdp, cii, pui, do_rem, rem_cr, do_ins, ins_cr),
    ensures
        post.wf_sums(),
{
    let oldcdp = pre.cdps@[id - 1];
    let parent = oldcdp.parent_address;
    let is_pool = oldcdp.is_pool_unit_collateral;
    lemma_col_update(pre, post, cii, post.collaterals@[cii]);
    if is_pool {
        lemma_pu_update(pre, post, pui, post.pool_units@[pui]);
    } else {
        lemma_same_pus(pre, post);
    }
    assert(pre.cdp_linked(id - 1));
    assert forall|i: int|
        0 <= i < post.collaterals@.len()
            implies (#[trigger] post.collaterals@[i]).minted_stab as int == sum_map(
        post.cdps@,
        debt_w(post.collaterals@[i].resource_address),
    ) && post.collaterals@[i].vault as int == sum_map(
        post.cdps@,
        vault_w(post.collaterals@[i].resource_address),
    ) by {
        let addr = post.collaterals@[i].resource_address;
        lemma_sum_map_update(pre.cdps@, id - 1, newcdp, debt_w(addr));
        lemma_sum_map_update(pre.cdps@, id - 1, newcdp, vault_w(addr));
        assert(addr == pre.collaterals@[i].resource_address);
        if i != cii {
            assert(post.collaterals@[i] == pre.collaterals@[i]);
            assert(addr != parent) by {
                if i < cii {
                    assert(pre.collaterals@[i].resource_address
                        != pre.collaterals@[cii].resource_address);
                } else {
                    assert(pre.collaterals@[cii].resource_address
                        != pre.collaterals@[i].resource_address);
                }
            }
            assert((debt_w(addr))(newcdp) == (debt_w(addr))(oldcdp));
            assert((vault_w(addr))(newcdp) == (vault_w(addr))(oldcdp)) by {
                if !oldcdp.is_pool_unit_collateral && oldcdp.collateral == addr {
                    assert(oldcdp.collateral == oldcdp.parent_address);
                    assert(false);
                }
            }
        }
    }
    assert forall|i: int|
        0 <= i < post.pool_units@.len()
            implies (#[trigger] post.pool_units@[i]).minted_stab as int == sum_map(
        post.cdps@,
        pu_debt_w(post.pool_units@[i].address),
    ) && post.pool_units@[i].vault as int == sum_map(
        post.cdps@,
        pu_vault_w(post.pool_units@[i].address),
    ) by {
        let addr = post.pool_units@[i].address;
        lemma_sum_map_update(pre.cdps@, id - 1, newcdp, pu_debt_w(addr));
        lemma_sum_map_update(pre.cdps@, id - 1, newcdp, pu_vault_w(addr));
        assert(addr == pre.pool_units@[i].address);
        if is_pool && i == pui {
        } else {
            assert(post.pool_units@[i] == pre.pool_units@[i]);
            assert((pu_debt_w(addr))(newcdp) == (pu_debt_w(addr))(oldcdp)) by {
                if oldcdp.is_pool_unit_collateral && oldcdp.collateral == addr {
                    assert(pre.has_pu(oldcdp.collateral));
                    assert(pre.pu_ix(addr) == i) by {
                        let a = pre.pu_ix(addr);
                        assert(pre.pool_units@[a].address == addr);
                        if a < i {
                            assert(pre.pool_units@[a].address != pre.pool_units@[i].address);
                        } else if i < a {
                            assert(pre.pool_units@[i].address != pre.pool_units@[a].address);
                        }
                    }
                    assert(is_pool && i == pui) by {
                        assert(pre.pool_units@[pui].address == oldcdp.collateral);
                        assert(pre.pu_ix(addr) == pui) by {
                            let a = pre.pu_ix(addr);
                            assert(pre.pool_units@[a].address == addr);
                            if a < pui {
                                assert(pre.pool_units@[a].address
                                    != pre.pool_units@[pui].address);
                            } else if pui < a {
                                assert(pre.pool_units@[pui].address
                                    != pre.pool_units@[a].address);
                            }
                        }
                    }
                    assert(false);
                }
            }
            assert((pu_vault_w(addr))(newcdp) == (pu_vault_w(addr))(oldcdp)) by {
                if oldcdp.is_pool_unit_collateral && oldcdp.collateral == addr {
                    assert(pre.has_pu(oldcdp.collateral));
                    assert(pre.pool_units@[pui].address == oldcdp.collateral);
                    if i < pui {
                        assert(pre.pool_units@[i].address != pre.pool_units@[pui].address);
                    } else if pui < i {
                        assert(pre.pool_units@[pui].address != pre.pool_units@[i].address);
                    }
                    assert(false);
                }
            }
        }
    }
    lemma_sum_map_update(pre.collaterals@, cii, post.collaterals@[cii], col_minted_w());
}

/// The commit step of a single-position rewrite without marker changes
/// keeps the engine well-formed.
pub proof fn update_commit_wf(
    pre: Stabilis,
    post: Stabilis,
    id: u64,
    newcdp: Cdp,
    cii: int,
    pui: int,
    do_rem: bool,
    rem_cr: i128,
    do_ins: bool,
    ins_cr: i128,
)
    requires
        pre.wf(),
        update_rel(pre, post, id, newcdp, cii, pui, do_rem, rem_cr, do_ins, ins_cr),
        pre.cdps@[id - 1].status != CdpStatus::Marked,
        newcdp.status != CdpStatus::Marked,
        post.markers@ == pre.markers@,
        post.marked_cdps == pre.marked_cdps,
    ensures
        post.wf(),
{
    update_commit_base(pre, post, id, newcdp, cii, pui, do_rem, rem_cr, do_ins, ins_cr);
    update_commit_index(pre, post, id, newcdp, cii, pui, do_rem, rem_cr, do_ins, ins_cr);
    lemma_marks_update(pre, post, id, newcdp);
    update_commit_sums(pre, post, id, newcdp, cii, pui, do_rem, rem_cr, do_ins, ins_cr);
}

/// Well-formedness carries over a change that rewrites no position,
/// marker, index or total: only parameters, prices or other untracked
/// fields moved.
#[verifier::rlimit(100)]
#[verifier::spinoff_prover]
pub proof fn lemma_wf_same_core(pre: Stabilis, post: Stabilis)
    requires
        pre.wf(),
        post.collaterals == pre.collaterals,
        post.pool_units == pre.pool_units,
        post.cdps == pre.cdps,
        post.markers == pre.markers,
        post.receipts == pre.receipts,
        post.marked_cdps == pre.marked_cdps,
        post.marked_cdps_active == pre.marked_cdps_active,
        post.marker_placing_counter == pre.marker_placing_counter,
        post.circulating_stab == pre.circulating_stab,
        post.parameters.liquidation_liquidation_fine >= 0,
        post.parameters.stabilis_liquidation_fine >= 0,
        post.parameters.minimum_mint >= 0,
    ensures
        post.wf(),
{
    lemma_same_cols(pre, post);
    lemma_same_pus(pre, post);
    assert(post.wf_base()) by {
        assert forall|i: int| 0 <= i < post.cdps@.len() implies #[trigger] post.cdp_linked(
            i,
        ) by {
            assert(pre.cdp_linked(i));
        }
        assert forall|i: int, j: int|
            0 <= i < j < post.collaterals@.len() implies post.collaterals@[i].resource_address
            != post.collaterals@[j].resource_address by {
            assert(pre.collaterals@[i].resource_address
                != pre.collaterals@[j].resource_address);
        }
        assert forall|i: int, j: int|
            0 <= i < j < post.pool_units@.len() implies post.pool_units@[i].address
            != post.pool_units@[j].address by {
            assert(pre.pool_units@[i].address != pre.pool_units@[j].address);
        }
        assert forall|i: int|
            0 <= i < post.collaterals@.len() implies post.collaterals@[i].ratios.wf() by {
            assert(pre.collaterals@[i].ratios.wf());
            assert(post.collaterals@[i].ratios == pre.collaterals@[i].ratios);
        }
        assert forall|i: int|
            0 <= i < post.cdps@.len() implies (#[trigger] post.cdps@[i]).collateral_amount >= 0
            && post.cdps@[i].minted_stab >= 0 && post.cdps@[i].collateral_stab_ratio >= 0 by {
            assert(post.cdps@[i] == pre.cdps@[i]);
            assert((#[trigger] pre.cdps@[i]).collateral_amount >= 0 && pre.cdps@[i].minted_stab
                >= 0 && pre.cdps@[i].collateral_stab_ratio >= 0);
        }
        assert forall|i: int|
            0 <= i < post.collaterals@.len() implies (#[trigger] post.collaterals@[i]).minted_stab >= 0 && post.collaterals@[i].vault >= 0 && post.collaterals@[i].treasury >= 0 by {
            assert((#[trigger] pre.collaterals@[i]).minted_stab >= 0 && pre.collaterals@[i].vault >= 0 && pre.collaterals@[i].treasury >= 0);
        }
        assert forall|i: int|
            0 <= i < post.pool_units@.len() implies (#[trigger] post.pool_units@[i]).minted_stab
            >= 0 && post.pool_units@[i].vault >= 0 && post.pool_units@[i].treasury >= 0
            && post.pool_units@[i].redemption_rate >= 0 by {
            assert((#[trigger] pre.pool_units@[i]).minted_stab >= 0 && pre.pool_units@[i].vault
                >= 0 && pre.pool_units@[i].treasury >= 0 && pre.pool_units@[i].redemption_rate
                >= 0);
        }
    }
    assert(post.wf_index()) by {
        assert forall|ci: int, cr: i128, id: u64|
            0 <= ci < post.collaterals@.len()
                && (#[trigger] post.collaterals@[ci].ratios.contains_id(cr, id))
                implies post.has_cdp(id) && post.cdp_of(id).status == CdpStatus::Healthy
            && post.cdp_of(id).parent_address == post.collaterals@[ci].resource_address
            && post.cdp_of(id).collateral_stab_ratio == cr by {
            assert(pre.collaterals@[ci].ratios.contains_id(cr, id));
        }
        assert forall|i: int|
            0 <= i < post.cdps@.len() && (#[trigger] post.cdps@[i]).status == CdpStatus::Healthy
                implies post.has_col(post.cdps@[i].parent_address) && post.col(
            post.cdps@[i].parent_address,
        ).ratios.contains_id(post.cdps@[i].collateral_stab_ratio, (i + 1) as u64) by {
            assert(pre.has_col(pre.cdps@[i].parent_address));
        }
    }
    lemma_marks_same(pre, post);
}

/// Well-formedness carries over rewriting one collateral record's
/// untracked fields: the address, index, debt total and vault stay.
#[verifier::rlimit(100)]
#[verifier::spinoff_prover]
pub proof fn lemma_wf_col_fields(pre: Stabilis, post: Stabilis, ci: int)
    requires
        pre.wf(),
        0 <= ci < pre.collaterals@.len(),
        post.collaterals@ == pre.collaterals@.update(ci, post.collaterals@[ci]),
        post.collaterals@[ci].resource_address == pre.collaterals@[ci].resource_address,
        post.collaterals@[ci].ratios == pre.collaterals@[ci].ratios,
        post.collaterals@[ci].minted_stab == pre.collaterals@[ci].minted_stab,
        post.collaterals@[ci].vault == pre.collaterals@[ci].vault,
        post.collaterals@[ci].treasury >= 0,
        post.pool_units == pre.pool_units,
        post.cdps == pre.cdps,
        post.markers == pre.markers,
        post.receipts == pre.receipts,
        post.marked_cdps == pre.marked_cdps,
        post.marked_cdps_active == pre.marked_cdps_active,
        post.marker_placing_counter == pre.marker_placing_counter,
        post.circulating_stab == pre.circulating_stab,
        post.parameters == pre.parameters,
    ensures
        post.wf(),
{
    lemma_col_update(pre, post, ci, post.collaterals@[ci]);
    lemma_same_pus(pre, post);
    assert(post.wf_base()) by {
        assert forall|i: int| 0 <= i < post.cdps@.len() implies #[trigger] post.cdp_linked(
            i,
        ) by {
            assert(pre.cdp_linked(i));
        }
        assert forall|i: int, j: int|
            0 <= i < j < post.collaterals@.len() implies post.collaterals@[i].resource_address
            != post.collaterals@[j].resource_address by {
            assert(pre.collaterals@[i].resource_address
                != pre.collaterals@[j].resource_address);
        }
        assert forall|i: int, j: int|
            0 <= i < j < post.pool_units@.len() implies post.pool_units@[i].address
            != post.pool_units@[j].address by {
            assert(pre.pool_units@[i].address != pre.pool_units@[j].address);
        }
        assert forall|i: int|
            0 <= i < post.collaterals@.len() implies post.collaterals@[i].ratios.wf() by {
            assert(pre.collaterals@[i].ratios.wf());
            if i != ci {
                assert(post.collaterals@[i] == pre.collaterals@[i]);
            }
        }
        assert forall|i: int|
            0 <= i < post.cdps@.len() implies (#[trigger] post.cdps@[i]).collateral_amount >= 0
            && post.cdps@[i].minted_stab >= 0 && post.cdps@[i].collateral_stab_ratio >= 0 by {
            assert(post.cdps@[i] == pre.cdps@[i]);
            assert((#[trigger] pre.cdps@[i]).collateral_amount >= 0 && pre.cdps@[i].minted_stab
                >= 0 && pre.cdps@[i].collateral_stab_ratio >= 0);
        }
        assert forall|i: int|
            0 <= i < post.collaterals@.len() implies (#[trigger] post.collaterals@[i]).minted_stab >= 0 && post.collaterals@[i].vault >= 0 && post.collaterals@[i].treasury >= 0 by {
            assert((#[trigger] pre.collaterals@[i]).minted_stab >= 0 && pre.collaterals@[i].vault >= 0 && pre.collaterals@[i].treasury >= 0);
            if i != ci {
                assert(post.collaterals@[i] == pre.collaterals@[i]);
            }
        }
        assert forall|i: int|
            0 <= i < post.pool_units@.len() implies (#[trigger] post.pool_units@[i]).minted_stab
            >= 0 && post.pool_units@[i].vault >= 0 && post.pool_units@[i].treasury >= 0
            && post.pool_units@[i].redemption_rate >= 0 by {
            assert((#[trigger] pre.pool_units@[i]).minted_stab >= 0 && pre.pool_units@[i].vault
                >= 0 && pre.pool_units@[i].treasury >= 0 && pre.pool_units@[i].redemption_rate
                >= 0);
        }
    }
    assert(post.wf_index()) by {
        assert forall|ci2: int, cr: i128, id: u64|
            0 <= ci2 < post.collaterals@.len()
                && (#[trigger] post.collaterals@[ci2].ratios.contains_id(cr, id))
                implies post.has_cdp(id) && post.cdp_of(id).status == CdpStatus::Healthy
            && post.cdp_of(id).parent_address == post.collaterals@[ci2].resource_address
            && post.cdp_of(id).collateral_stab_ratio == cr by {
            if ci2 == ci {
                assert(pre.collaterals@[ci].ratios.contains_id(cr, id));
            } else {
                assert(post.collaterals@[ci2] == pre.collaterals@[ci2]);
                assert(pre.collaterals@[ci2].ratios.contains_id(cr, id));
            }
        }
        assert forall|i: int|
            0 <= i < post.cdps@.len() && (#[trigger] post.cdps@[i]).status == CdpStatus::Healthy
                implies post.has_col(post.cdps@[i].parent_address) && post.col(
            post.cdps@[i].parent_address,
        ).ratios.contains_id(post.cdps@[i].collateral_stab_ratio, (i + 1) as u64) by {
            let pa = pre.cdps@[i].parent_address;
            assert(pre.has_col(pa) && pre.col(pa).ratios.contains_id(
                pre.cdps@[i].collateral_stab_ratio,
                (i + 1) as u64,
            ));
            if pa == pre.collaterals@[ci].resource_address {
                assert(post.col(pa) == post.collaterals@[ci]) by {
                    assert(pre.col_ix(pa) == ci) by {
                        let a = pre.col_ix(pa);
                        assert(pre.collaterals@[a].resource_address == pa);
                        if a < ci {
                            assert(pre.collaterals@[a].resource_address
                                != pre.collaterals@[ci].resource_address);
                        } else if ci < a {
                            assert(pre.collaterals@[ci].resource_address
                                != pre.collaterals@[a].resource_address);
                        }
                    }
                }
            } else {
                assert(post.col(pa) == pre.col(pa));
            }
        }
    }
    lemma_marks_same(pre, post);
    assert(post.wf_sums()) by {
        lemma_sum_map_update(
            pre.collaterals@,
            ci,
            post.collaterals@[ci],
            col_minted_w(),
        );
        assert forall|i: int|
            0 <= i < post.collaterals@.len()
                implies (#[trigger] post.collaterals@[i]).minted_stab as int == sum_map(
            post.cdps@,
            debt_w(post.collaterals@[i].resource_address),
        ) && post.collaterals@[i].vault as int == sum_map(
            post.cdps@,
            vault_w(post.collaterals@[i].resource_address),
        ) by {
            if i != ci {
                assert(post.collaterals@[i] == pre.collaterals@[i]);
            }
        }
    }
}

/// Well-formedness carries over rewriting one pool-unit record's
/// untracked fields.
#[verifier::rlimit(100)]
#[verifier::spinoff_prover]
pub proof fn lemma_wf_pu_fields(pre: Stabilis, post: Stabilis, pi: int)
    requires
        pre.wf(),
        0 <= pi < pre.pool_units@.len(),
        post.pool_units@ == pre.pool_units@.update(pi, post.pool_units@[pi]),
        post.pool_units@[pi].address == pre.pool_units@[pi].address,
        post.pool_units@[pi].parent_address == pre.pool_units@[pi].parent_address,
        post.pool_units@[pi].minted_stab == pre.pool_units@[pi].minted_stab,
        post.pool_units@[pi].vault == pre.pool_units@[pi].vault,
        post.pool_units@[pi].treasury >= 0,
        post.pool_units@[pi].redemption_rate >= 0,
        post.collaterals == pre.collaterals,
        post.cdps == pre.cdps,
        post.markers == pre.markers,
        post.receipts == pre.receipts,
        post.marked_cdps == pre.marked_cdps,
        post.marked_cdps_active == pre.marked_cdps_active,
        post.marker_placing_counter == pre.marker_placing_counter,
        post.circulating_stab == pre.circulating_stab,
        post.parameters == pre.parameters,
    ensures
        post.wf(),
{
    lemma_same_cols(pre, post);
    lemma_pu_update(pre, post, pi, post.pool_units@[pi]);
    assert(post.wf_base()) by {
        assert forall|i: int| 0 <= i < post.cdps@.len() implies #[trigger] post.cdp_linked(
            i,
        ) by {
            assert(pre.cdp_linked(i));
            let c = pre.cdps@[i];
            if c.is_pool_unit_collateral {
                if c.collateral == pre.pool_units@[pi].address {
                    assert(post.pu(c.collateral) == post.pool_units@[pi]);
                } else {
                    assert(post.pu(c.collateral) == pre.pu(c.collateral));
                }
            }
        }
        assert forall|i: int, j: int|
            0 <= i < j < post.collaterals@.len() implies post.collaterals@[i].resource_address
            != post.collaterals@[j].resource_address by {
            assert(pre.collaterals@[i].resource_address
                != pre.collaterals@[j].resource_address);
        }
        assert forall|i: int, j: int|
            0 <= i < j < post.pool_units@.len() implies post.pool_units@[i].address
            != post.pool_units@[j].address by {
            assert(pre.pool_units@[i].address != pre.pool_units@[j].address);
        }
        assert forall|i: int|
            0 <= i < post.collaterals@.len() implies post.collaterals@[i].ratios.wf() by {
            assert(pre.collaterals@[i].ratios.wf());
            assert(post.collaterals@[i].ratios == pre.collaterals@[i].ratios);
        }
        assert forall|i: int|
            0 <= i < post.cdps@.len() implies (#[trigger] post.cdps@[i]).collateral_amount >= 0
            && post.cdps@[i].minted_stab >= 0 && post.cdps@[i].collateral_stab_ratio >= 0 by {
            assert(post.cdps@[i] == pre.cdps@[i]);
            assert((#[trigger] pre.cdps@[i]).collateral_amount >= 0 && pre.cdps@[i].minted_stab
                >= 0 && pre.cdps@[i].collateral_stab_ratio >= 0);
        }
        assert forall|i: int|
            0 <= i < post.collaterals@.len() implies (#[trigger] post.collaterals@[i]).minted_stab >= 0 && post.collaterals@[i].vault >= 0 && post.collaterals@[i].treasury >= 0 by {
            assert((#[trigger] pre.collaterals@[i]).minted_stab >= 0 && pre.collaterals@[i].vault >= 0 && pre.collaterals@[i].treasury >= 0);
        }
        assert forall|i: int|
            0 <= i < post.pool_units@.len() implies (#[trigger] post.pool_units@[i]).minted_stab
            >= 0 && post.pool_units@[i].vault >= 0 && post.pool_units@[i].treasury >= 0
            && post.pool_units@[i].redemption_rate >= 0 by {
            assert((#[trigger] pre.pool_units@[i]).minted_stab >= 0 && pre.pool_units@[i].vault
                >= 0 && pre.pool_units@[i].treasury >= 0 && pre.pool_units@[i].redemption_rate
                >= 0);
            if i != pi {
                assert(post.pool_units@[i] == pre.pool_units@[i]);
            }
        }
    }
    assert(post.wf_index()) by {
        assert forall|ci: int, cr: i128, id: u64|
            0 <= ci < post.collaterals@.len()
                && (#[trigger] post.collaterals@[ci].ratios.contains_id(cr, id))
                implies post.has_cdp(id) && post.cdp_of(id).status == CdpStatus::Healthy
            && post.cdp_of(id).parent_address == post.collaterals@[ci].resource_address
            && post.cdp_of(id).collateral_stab_ratio == cr by {
            assert(pre.collaterals@[ci].ratios.contains_id(cr, id));
        }
        assert forall|i: int|
            0 <= i < post.cdps@.len() && (#[trigger] post.cdps@[i]).status == CdpStatus::Healthy
                implies post.has_col(post.cdps@[i].parent_address) && post.col(
            post.cdps@[i].parent_address,
        ).ratios.contains_id(post.cdps@[i].collateral_stab_ratio, (i + 1) as u64) by {
            assert(pre.has_col(pre.cdps@[i].parent_address));
        }
    }
    lemma_marks_same(pre, post);
    assert(post.wf_sums()) by {
        assert forall|i: int|
            0 <= i < post.pool_units@.len()
                implies (#[trigger] post.pool_units@[i]).minted_stab as int == sum_map(
            post.cdps@,
            pu_debt_w(post.pool_units@[i].address),
        ) && post.pool_units@[i].vault as int == sum_map(
            post.cdps@,
            pu_vault_w(post.pool_units@[i].address),
        ) by {
            if i != pi {
                assert(post.pool_units@[i] == pre.pool_units@[i]);
            }
        }
    }
}

/// Pool-unit debt summed for a fresh resource is zero.
pub proof fn lemma_sum_pu_zero(s: Seq<Cdp>, pre: Stabilis, res: u64)
    requires
        !pre.has_pu(res),
        pre.wf_base(),
        s == pre.cdps@,
    ensures
        sum_map(s, pu_debt_w(res)) == 0,
        sum_map(s, pu_vault_w(res)) == 0,
    decreases 0int,
{
    assert forall|i: int|
        0 <= i < s.len() implies (pu_debt_w(res))(s[i]) == 0 && (pu_vault_w(res))(s[i])
        == 0 by {
        assert(pre.cdp_linked(i));
        if s[i].is_pool_unit_collateral && s[i].collateral == res {
            assert(pre.has_pu(res));
        }
    }
    lemma_sum_map_zero(s, pu_debt_w(res));
    lemma_sum_map_zero(s, pu_vault_w(res));
}

/// A position stands in its parent's ratio index exactly when it is
/// healthy, and in the marked index exactly when it is marked;
/// positions in terminal states stand in neither.
pub proof fn lemma_position_indexing(s: Stabilis, id: u64)
    requires
        s.wf(),
        s.has_cdp(id),
    ensures
        s.cdp_of(id).status == CdpStatus::Healthy <==> (s.has_col(s.cdp_of(id).parent_address)
            && s.col(s.cdp_of(id).parent_address).ratios.contains_id(
            s.cdp_of(id).collateral_stab_ratio,
            id,
        )),
        s.cdp_of(id).status == CdpStatus::Marked <==> exists|p: i128|
            #[trigger] s.marked_cdps.contains_placing(p) && s.marked_cdps.id_at(p) == id,
{
    let c = s.cdp_of(id);
    assert(s.marked_cdp_ok(id - 1));
    if s.has_col(c.parent_address) && s.col(c.parent_address).ratios.contains_id(
        c.collateral_stab_ratio,
        id,
    ) {
        let ci = s.col_ix(c.parent_address);
        assert(s.collaterals@[ci].ratios.contains_id(c.collateral_stab_ratio, id));
    }
    if c.status == CdpStatus::Marked {
        let p = s.marker_of(c.marker_id).marker_placing;
        assert(s.marked_cdps.contains_placing(p) && s.marked_cdps.id_at(p) == id);
    }
    if exists|p: i128| #[trigger] s.marked_cdps.contains_placing(p) && s.marked_cdps.id_at(p)
        == id {
        let p = choose|p: i128| #[trigger] s.marked_cdps.contains_placing(p)
            && s.marked_cdps.id_at(p) == id;
        assert(s.placing_ok(p));
    }
}

/// A marking marker stays unused exactly while the position it marked
/// is still marked through it; a liquidation or save consumes it.
pub proof fn lemma_marker_consumed(s: Stabilis, mid: u64)
    requires
        s.wf(),
        s.has_marker(mid),
        s.marker_of(mid).mark_type == CdpUpdate::Marked,
    ensures
        !s.marker_of(mid).used <==> (s.has_cdp(s.marker_of(mid).marked_id) && s.cdp_of(
            s.marker_of(mid).marked_id,
        ).status == CdpStatus::Marked && s.cdp_of(s.marker_of(mid).marked_id).marker_id == mid),
{
    let id = s.marker_of(mid).marked_id;
    assert(s.marker_ok(mid - 1));
    if s.has_cdp(id) && s.cdp_of(id).status == CdpStatus::Marked && s.cdp_of(id).marker_id
        == mid {
        assert(s.marked_cdp_ok(id - 1));
    }
}

/// Opening a position and closing it at once round-trips: with a
/// payment of exactly the minted debt and no price or interest change
/// in between, closing is allowed, gives back exactly the collateral
/// bucket that opened the position, leaves no stablecoins over, and
/// ends the position closed.
pub proof fn lemma_open_close_round_trip(
    s0: Stabilis,
    s1: Stabilis,
    b: Bucket,
    mint: i128,
    id: u64,
    payment: Bucket,
)
    requires
        s0.wf(),
        b.amount >= 0,
        mint >= 0,
        s0.spec_open_ok(b, mint, true),
        !s0.parameters.stop_closings,
        id == s0.cdps@.len() + 1,
        payment == (Bucket { resource: s0.stab_resource, amount: mint }),
        s1.cdps@ == s0.cdps@.push(
            Cdp {
                collateral: b.resource,
                parent_address: s0.parent_of(b.resource),
                is_pool_unit_collateral: s0.is_pool(b.resource),
                collateral_amount: b.amount,
                minted_stab: mint,
                collateral_stab_ratio: div_fp(
                    s0.spec_underlying(b.amount as int, b.resource, s0.is_pool(b.resource)),
                    mint as int,
                ) as i128,
                status: CdpStatus::Healthy,
                marker_id: 0,
            },
        ),
        s1.parameters == s0.parameters,
        s1.stab_resource == s0.stab_resource,
        fits_fp(
            mul_fp(s1.cdp_of(id).collateral_stab_ratio as int, s1.cdp_of(id).minted_stab as int),
        ),
        fits_fp(
            s1.col(s1.cdp_of(id).parent_address).collateral_amount as int - mul_fp(
                s1.cdp_of(id).collateral_stab_ratio as int,
                s1.cdp_of(id).minted_stab as int,
            ),
        ),
    ensures
        s1.spec_close_ok(id, payment),
        forall|s2: Stabilis, out: (Bucket, Bucket)|
            Stabilis::close_post(s1, s2, id, payment, out) ==> out.0 == b && out.1.amount == 0
                && s2.cdp_of(id).status == CdpStatus::Closed,
{
    let c = s1.cdp_of(id);
    assert(c.minted_stab == mint);
    assert(c.status == CdpStatus::Healthy);
    assert(s1.spec_close_ok(id, payment));
    assert forall|s2: Stabilis, out: (Bucket, Bucket)|
        Stabilis::close_post(s1, s2, id, payment, out) implies out.0 == b && out.1.amount == 0
        && s2.cdp_of(id).status == CdpStatus::Closed by {
        assert(out.0 == Bucket { resource: c.collateral, amount: c.collateral_amount });
        assert(c.collateral == b.resource && c.collateral_amount == b.amount);
        assert(out.1.amount == payment.amount - c.minted_stab);
        assert(s2.cdps@[id - 1].status == CdpStatus::Closed);
    }
}

/// Debt summed for a resource no position names as parent is zero.
pub proof fn lemma_sum_debt_zero(s: Seq<Cdp>, f: spec_fn(Cdp) -> int, pre: Stabilis, res: u64)
    requires
        f == debt_w(res),
        !pre.has_col(res),
        pre.wf_base(),
        s == pre.cdps@,
    ensures
        sum_map(s, f) == 0,
{
    assert forall|i: int| 0 <= i < s.len() implies f(s[i]) == 0 by {
        assert(pre.cdp_linked(i));
        if s[i].parent_address == res {
            assert(pre.has_col(res));
        }
    }
    lemma_sum_map_zero(s, f);
}

/// Vault balance summed for a resource no position stores is zero.
pub proof fn lemma_sum_vault_zero(s: Seq<Cdp>, f: spec_fn(Cdp) -> int, pre: Stabilis, res: u64)
    requires
        f == vault_w(res),
        !pre.has_col(res),
        pre.wf_base(),
        s == pre.cdps@,
    ensures
        sum_map(s, f) == 0,
{
    assert forall|i: int| 0 <= i < s.len() implies f(s[i]) == 0 by {
        assert(pre.cdp_linked(i));
        let c = s[i];
        if !c.is_pool_unit_collateral && c.collateral == res {
            assert(pre.has_col(res));
        }
    }
    lemma_sum_map_zero(s, f);
}

pub proof fn lemma_sum_map_zero<T>(s: Seq<T>, f: spec_fn(T) -> int)
    requires
        forall|i: int| 0 <= i < s.len() ==> f(s[i]) == 0,
    ensures
        sum_map(s, f) == 0,
    decreases s.len(),
{
    if s.len() > 0 {
        lemma_sum_map_zero(s.drop_last(), f);
        assert(f(s.last()) == 0);
    }
}

} // verus!
