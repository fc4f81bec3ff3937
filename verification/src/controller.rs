//! The price controller: reads oracle prices into the engine, keeps a
//! ring buffer of market-price errors and drives the engine's internal
//! target price through a compounding interest rate.
//!
//! A positive error (market above target) lowers the interest rate; the
//! rate, raised to the number of elapsed minutes, compounds the internal
//! price, so the feedback pulls market and target back together.

use vstd::prelude::*;
use crate::fixed::{SCALE, mul_fp, div_fp, fits_fp, pow_fp, pow_fits, dec_mul, dec_div, add_fp, sub_fp, dec_pow, lemma_mul_fp_nonneg, lemma_div_fp_nonneg};
use crate::engine::Stabilis;
use crate::types::StabError;

verus! {

/// Controller state; every decimal quantity is an 18-decimal
/// fixed-point `i128`.
pub struct Proxy {
    /// Ring buffer of the most recent price errors, oldest overwritten.
    pub latest_stab_price_errors: Vec<i128>,
    /// Running sum of the buffered errors.
    pub latest_stab_price_errors_total: i128,
    /// Seconds at the last controller run.
    pub last_update: i64,
    /// Minutes that must pass between controller runs.
    pub update_delay: i64,
    /// Capacity of the ring buffer.
    pub number_of_cached_prices: u64,
    /// One-based slot written last.
    pub last_changed_price: u64,
    /// Mirror of the engine's internal target price.
    pub internal_price: i128,
    pub full_cache: bool,
    pub interest_rate: i128,
    pub kp: i128,
    pub ki: i128,
    /// Price of the base resource the market quote is denominated in.
    pub base_price: i128,
    /// The oracle entry that drives the base price.
    pub base_resource: u64,
    pub max_interest_rate: i128,
    pub min_interest_rate: i128,
    pub allowed_deviation: i128,
    pub max_price_error: i128,
    pub price_error_offset: i128,
    /// Collaterals whose oracle prices are forwarded to the engine.
    pub accepted_collaterals: Vec<u64>,
}

impl Proxy {
    pub open spec fn wf(self) -> bool {
        &&& self.number_of_cached_prices >= 1
        &&& self.latest_stab_price_errors@.len() <= self.number_of_cached_prices
        &&& self.last_changed_price <= self.latest_stab_price_errors@.len()
    }

    /// The raw controller error: the market quote in units of account,
    /// offset applied, against the internal target, capped above.
    pub open spec fn spec_price_error(self, market_stab_price: i128) -> int {
        let raw = mul_fp(
            mul_fp(market_stab_price as int, self.base_price as int),
            self.price_error_offset as int,
        ) - self.internal_price as int;
        if raw > self.max_price_error as int {
            self.max_price_error as int
        } else {
            raw
        }
    }

    /// The running error sum after this step's write.
    pub open spec fn spec_new_total(self, market_stab_price: i128) -> int {
        let err = self.spec_price_error(market_stab_price);
        let wrap = self.last_changed_price >= self.number_of_cached_prices;
        let slot = if wrap {
            1int
        } else {
            self.last_changed_price as int + 1
        };
        let old_v = if slot <= self.latest_stab_price_errors@.len() {
            self.latest_stab_price_errors@[slot - 1] as int
        } else {
            0int
        };
        if !self.full_cache && !wrap {
            self.latest_stab_price_errors_total + err
        } else {
            self.latest_stab_price_errors_total + err - old_v
        }
    }

    /// Whole minutes elapsed since the last controller run.
    pub open spec fn spec_minutes(self, now: i64) -> int {
        (now - self.last_update) / 60
    }

    /// The interest rate after this step: stepped down by the
    /// proportional and integral terms when the error leaves the
    /// allowed band, then clamped; unchanged otherwise.
    pub open spec fn spec_new_rate(self, market_stab_price: i128, now: i64) -> int {
        let err = self.spec_price_error(market_stab_price);
        let total = self.spec_new_total(market_stab_price);
        let band = mul_fp(self.allowed_deviation as int, self.internal_price as int);
        let abs_err = if err >= 0 {
            err
        } else {
            -err
        };
        if abs_err <= band {
            self.interest_rate as int
        } else {
            let n_fp = self.number_of_cached_prices as int * (SCALE as int);
            let denom = mul_fp(self.internal_price as int, n_fp);
            let terms = mul_fp(self.kp as int, div_fp(err, self.internal_price as int)) + mul_fp(
                self.ki as int,
                div_fp(total, denom),
            );
            let stepped = self.interest_rate as int - mul_fp(
                terms,
                self.spec_minutes(now) * (SCALE as int),
            );
            if stepped > self.max_interest_rate as int {
                self.max_interest_rate as int
            } else if stepped < self.min_interest_rate as int {
                self.min_interest_rate as int
            } else {
                stepped
            }
        }
    }

    /// All conditions under which a controller step succeeds: every
    /// intermediate of the error, the ring-buffer sum, the rate step
    /// and the compounding stays representable.
    pub open spec fn spec_controller_ok(self, market_stab_price: i128, now: i64) -> bool {
        let m1 = mul_fp(market_stab_price as int, self.base_price as int);
        let m2 = mul_fp(m1, self.price_error_offset as int);
        let raw = m2 - self.internal_price as int;
        let err = self.spec_price_error(market_stab_price);
        let wrap = self.last_changed_price >= self.number_of_cached_prices;
        let slot = if wrap {
            1int
        } else {
            self.last_changed_price as int + 1
        };
        let old_v = if slot <= self.latest_stab_price_errors@.len() {
            self.latest_stab_price_errors@[slot - 1] as int
        } else {
            0int
        };
        let total = self.spec_new_total(market_stab_price);
        let band = mul_fp(self.allowed_deviation as int, self.internal_price as int);
        let abs_err = if err >= 0 {
            err
        } else {
            -err
        };
        let minutes = self.spec_minutes(now);
        let rate = self.spec_new_rate(market_stab_price, now);
        &&& fits_fp(m1)
        &&& fits_fp(m2)
        &&& fits_fp(raw)
        &&& now - self.last_update <= i64::MAX
        &&& (if !self.full_cache && !wrap {
            fits_fp(self.latest_stab_price_errors_total + err)
        } else {
            fits_fp(err - old_v) && fits_fp(self.latest_stab_price_errors_total + (err - old_v))
        })
        &&& err > i128::MIN
        &&& fits_fp(band)
        &&& (abs_err > band ==> {
            let n_fp = self.number_of_cached_prices as int * (SCALE as int);
            let denom = mul_fp(self.internal_price as int, n_fp);
            let p_term = mul_fp(self.kp as int, div_fp(err, self.internal_price as int));
            let i_term = mul_fp(self.ki as int, div_fp(total, denom));
            &&& self.internal_price != 0
            &&& fits_fp(div_fp(err, self.internal_price as int))
            &&& fits_fp(p_term)
            &&& fits_fp(n_fp)
            &&& fits_fp(denom)
            &&& denom != 0
            &&& fits_fp(div_fp(total, denom))
            &&& fits_fp(i_term)
            &&& fits_fp(p_term + i_term)
            &&& fits_fp(minutes * (SCALE as int))
            &&& fits_fp(mul_fp(p_term + i_term, minutes * (SCALE as int)))
            &&& fits_fp(
                self.interest_rate - mul_fp(p_term + i_term, minutes * (SCALE as int)),
            )
        })
        &&& pow_fits(rate, minutes as nat)
        &&& fits_fp(mul_fp(self.internal_price as int, pow_fp(rate, minutes as nat)))
    }

    pub fn new(base_resource: u64, internal_price: i128) -> (r: Proxy)
        ensures
            r.wf(),
            r.internal_price == internal_price,
            r.interest_rate == SCALE,
            r.base_resource == base_resource,
            r.update_delay == 0,
            r.number_of_cached_prices == 50,
            r.last_changed_price == 0,
            !r.full_cache,
            r.latest_stab_price_errors_total == 0,
            r.accepted_collaterals@.len() == 0,
    {
        Proxy {
            latest_stab_price_errors: Vec::new(),
            latest_stab_price_errors_total: 0,
            last_update: 0,
            update_delay: 0,
            number_of_cached_prices: 50,
            last_changed_price: 0,
            internal_price,
            full_cache: false,
            interest_rate: SCALE,
            kp: 765178570,
            ki: 765178570,
            base_price: 41_000_000_000_000_000,
            base_resource,
            max_interest_rate: 1_000_000_771_500_000_000,
            min_interest_rate: 999_999_228_700_000_000,
            allowed_deviation: 5_000_000_000_000_000,
            max_price_error: 500_000_000_000_000_000,
            price_error_offset: SCALE,
            accepted_collaterals: Vec::new(),
        }
    }

    pub fn set_price_error(&mut self, new_max: i128, new_offset: i128)
        requires
            old(self).wf(),
        ensures
            final(self).wf(),
            final(self).max_price_error == new_max,
            final(self).price_error_offset == new_offset,
    {
        self.max_price_error = new_max;
        self.price_error_offset = new_offset;
    }

    pub fn set_allowed_deviation(&mut self, allowed_deviation: i128)
        requires
            old(self).wf(),
        ensures
            final(self).wf(),
            final(self).allowed_deviation == allowed_deviation,
    {
        self.allowed_deviation = allowed_deviation;
    }

    /// Resize the ring buffer; the cache starts over.
    pub fn set_number_of_prices_cached(&mut self, new_number: u64)
        requires
            old(self).wf(),
            new_number >= 1,
        ensures
            final(self).wf(),
            final(self).number_of_cached_prices == new_number,
            final(self).latest_stab_price_errors_total == 0,
            final(self).last_changed_price == 0,
            !final(self).full_cache,
    {
        self.number_of_cached_prices = new_number;
        self.latest_stab_price_errors_total = 0;
        self.last_changed_price = 0;
        self.full_cache = false;
        self.latest_stab_price_errors = Vec::new();
    }

    pub fn set_minmax_interest(&mut self, min_interest: i128, max_interest: i128)
        requires
            old(self).wf(),
        ensures
            final(self).wf(),
            final(self).min_interest_rate == min_interest,
            final(self).max_interest_rate == max_interest,
    {
        self.min_interest_rate = min_interest;
        self.max_interest_rate = max_interest;
    }

    pub fn set_update_delays(&mut self, update_delay: i64)
        requires
            old(self).wf(),
        ensures
            final(self).wf(),
            final(self).update_delay == update_delay,
    {
        self.update_delay = update_delay;
    }

    pub fn set_ks(&mut self, new_ki: i128, new_kp: i128)
        requires
            old(self).wf(),
        ensures
            final(self).wf(),
            final(self).ki == new_ki,
            final(self).kp == new_kp,
    {
        self.ki = new_ki;
        self.kp = new_kp;
    }

    pub fn add_accepted_collateral(&mut self, res: u64)
        requires
            old(self).wf(),
        ensures
            final(self).wf(),
            final(self).accepted_collaterals@ == old(self).accepted_collaterals@.push(res),
    {
        self.accepted_collaterals.push(res);
    }

    pub fn get_internal_price(&self) -> (r: i128)
        ensures
            r == self.internal_price,
    {
        self.internal_price
    }

    /// One controller step: push the capped error into the ring
    /// buffer, adjust the interest rate when the error leaves the
    /// allowed band, compound the internal price by the elapsed
    /// minutes, and stamp the time.
    ///
    /// With nonnegative gains, a positive error and a nonnegative
    /// error sum, the rate never rises: the feedback only pushes the
    /// target toward the market.
    #[verifier::rlimit(100)]
    #[verifier::spinoff_prover]
    pub fn update_internal_price(
        &mut self,
        engine: &mut Stabilis,
        market_stab_price: i128,
        now: i64,
    ) -> (r: Result<(), StabError>)
        requires
            old(self).wf(),
            old(engine).wf(),
            now >= old(self).last_update,
        ensures
            final(self).wf(),
            final(engine).wf(),
            r is Err ==> *final(self) == *old(self) && *final(engine) == *old(engine),
            r matches Err(e) ==> e == StabError::Overflow,
            r is Ok <==> old(self).spec_controller_ok(market_stab_price, now),
            r is Ok ==> {
                &&& final(self).last_update == now
                &&& final(engine).internal_stab_price == final(self).internal_price
                &&& final(engine).cdps@ == old(engine).cdps@
                &&& final(engine).circulating_stab == old(engine).circulating_stab
                &&& final(engine).collaterals == old(engine).collaterals
                &&& final(engine).pool_units == old(engine).pool_units
                &&& final(engine).markers == old(engine).markers
                &&& final(engine).receipts == old(engine).receipts
            },
            r is Ok ==> {
                let err = old(self).spec_price_error(market_stab_price);
                let wrap = old(self).last_changed_price >= old(self).number_of_cached_prices;
                let slot = if wrap {
                    1int
                } else {
                    old(self).last_changed_price as int + 1
                };
                let rate = old(self).spec_new_rate(market_stab_price, now);
                let minutes = old(self).spec_minutes(now);
                &&& final(self).latest_stab_price_errors@ == (if slot <= old(
                    self,
                ).latest_stab_price_errors@.len() {
                    old(self).latest_stab_price_errors@.update(slot - 1, err as i128)
                } else {
                    old(self).latest_stab_price_errors@.push(err as i128)
                })
                &&& final(self).latest_stab_price_errors_total as int == old(
                    self,
                ).spec_new_total(market_stab_price)
                &&& final(self).last_changed_price as int == slot
                &&& final(self).full_cache == (old(self).full_cache || wrap)
                &&& final(self).interest_rate as int == rate
                &&& final(self).internal_price as int == mul_fp(
                    old(self).internal_price as int,
                    pow_fp(rate, minutes as nat),
                )
                &&& final(self).base_price == old(self).base_price
                &&& final(self).update_delay == old(self).update_delay
                &&& final(self).number_of_cached_prices == old(self).number_of_cached_prices
                &&& final(self).accepted_collaterals == old(self).accepted_collaterals
            },
            r is Ok && old(self).kp >= 0 && old(self).ki >= 0 && old(self).internal_price > 0
                && old(self).spec_price_error(market_stab_price) >= 0 && old(
                self,
            ).spec_new_total(market_stab_price) >= 0 && old(self).min_interest_rate <= old(
                self,
            ).interest_rate <= old(self).max_interest_rate ==> final(self).interest_rate <= old(
                self,
            ).interest_rate,
    {
        let ghost pre = *self;
        let m1 = match dec_mul(market_stab_price, self.base_price) {
            Some(v) => v,
            None => {
                return Err(StabError::Overflow);
            },
        };
        let m2 = match dec_mul(m1, self.price_error_offset) {
            Some(v) => v,
            None => {
                return Err(StabError::Overflow);
            },
        };
        let raw = match sub_fp(m2, self.internal_price) {
            Some(v) => v,
            None => {
                return Err(StabError::Overflow);
            },
        };
        let price_error: i128 = if raw > self.max_price_error {
            self.max_price_error
        } else {
            raw
        };
        let diff = match now.checked_sub(self.last_update) {
            Some(v) => v,
            None => {
                return Err(StabError::Overflow);
            },
        };
        let minutes: i64 = diff / 60;
        let to_change_id: u64 = if self.last_changed_price >= self.number_of_cached_prices {
            self.number_of_cached_prices + 0
        } else {
            self.last_changed_price + 1
        };
        let wrap = self.last_changed_price >= self.number_of_cached_prices;
        let slot: u64 = if wrap {
            1
        } else {
            to_change_id
        };
        let will_be_full = self.full_cache || wrap;
        let buflen = self.latest_stab_price_errors.len() as u64;
        let old_at_slot: i128 = if slot <= buflen {
            self.latest_stab_price_errors[(slot - 1) as usize]
        } else {
            0
        };
        let new_total: i128 = if !self.full_cache && !wrap {
            match add_fp(self.latest_stab_price_errors_total, price_error) {
                Some(v) => v,
                None => {
                    return Err(StabError::Overflow);
                },
            }
        } else {
            let d = match sub_fp(price_error, old_at_slot) {
                Some(v) => v,
                None => {
                    return Err(StabError::Overflow);
                },
            };
            match add_fp(self.latest_stab_price_errors_total, d) {
                Some(v) => v,
                None => {
                    return Err(StabError::Overflow);
                },
            }
        };
        // decide the new rate before touching any state
        let mut new_rate: i128 = self.interest_rate;
        let abs_err: i128 = if price_error >= 0 {
            price_error
        } else if price_error == i128::MIN {
            return Err(StabError::Overflow);
        } else {
            -price_error
        };
        let band = match dec_mul(self.allowed_deviation, self.internal_price) {
            Some(v) => v,
            None => {
                return Err(StabError::Overflow);
            },
        };
        if abs_err > band {
            let p_term0 = match dec_div(price_error, self.internal_price) {
                Some(v) => v,
                None => {
                    return Err(StabError::Overflow);
                },
            };
            let p_term = match dec_mul(self.kp, p_term0) {
                Some(v) => v,
                None => {
                    return Err(StabError::Overflow);
                },
            };
            let n_fp = match (self.number_of_cached_prices as i128).checked_mul(SCALE) {
                Some(v) => v,
                None => {
                    return Err(StabError::Overflow);
                },
            };
            let denom = match dec_mul(self.internal_price, n_fp) {
                Some(v) => v,
                None => {
                    return Err(StabError::Overflow);
                },
            };
            let i_term0 = match dec_div(new_total, denom) {
                Some(v) => v,
                None => {
                    return Err(StabError::Overflow);
                },
            };
            let i_term = match dec_mul(self.ki, i_term0) {
                Some(v) => v,
                None => {
                    return Err(StabError::Overflow);
                },
            };
            let terms = match add_fp(p_term, i_term) {
                Some(v) => v,
                None => {
                    return Err(StabError::Overflow);
                },
            };
            let mins_fp = match (minutes as i128).checked_mul(SCALE) {
                Some(v) => v,
                None => {
                    return Err(StabError::Overflow);
                },
            };
            let adj = match dec_mul(terms, mins_fp) {
                Some(v) => v,
                None => {
                    return Err(StabError::Overflow);
                },
            };
            let stepped = match sub_fp(self.interest_rate, adj) {
                Some(v) => v,
                None => {
                    return Err(StabError::Overflow);
                },
            };
            new_rate = if stepped > self.max_interest_rate {
                self.max_interest_rate
            } else if stepped < self.min_interest_rate {
                self.min_interest_rate
            } else {
                stepped
            };
            proof {
                if pre.kp >= 0 && pre.ki >= 0 && pre.internal_price > 0 && pre.spec_price_error(
                    market_stab_price,
                ) >= 0 && pre.spec_new_total(market_stab_price) >= 0 && pre.min_interest_rate
                    <= pre.interest_rate <= pre.max_interest_rate {
                    lemma_div_fp_nonneg(price_error as int, pre.internal_price as int);
                    lemma_mul_fp_nonneg(pre.kp as int, p_term0 as int);
                    assert(n_fp >= 0);
                    lemma_mul_fp_nonneg(pre.internal_price as int, n_fp as int);
                    assert(denom != 0);
                    assert(denom > 0);
                    assert(new_total as int == pre.spec_new_total(market_stab_price));
                    assert(new_total >= 0);
                    lemma_div_fp_nonneg(new_total as int, denom as int);
                    lemma_mul_fp_nonneg(pre.ki as int, i_term0 as int);
                    assert(mins_fp >= 0);
                    lemma_mul_fp_nonneg(terms as int, mins_fp as int);
                    assert(adj >= 0);
                    assert(new_rate <= pre.interest_rate);
                }
            }
        }
        let exponent: u64 = if minutes >= 0 {
            minutes as u64
        } else {
            0
        };
        let factor = match dec_pow(new_rate, exponent) {
            Some(v) => v,
            None => {
                return Err(StabError::Overflow);
            },
        };
        let new_price = match dec_mul(self.internal_price, factor) {
            Some(v) => v,
            None => {
                return Err(StabError::Overflow);
            },
        };
        // commit
        if slot <= buflen {
            self.latest_stab_price_errors[(slot - 1) as usize] = price_error;
        } else {
            self.latest_stab_price_errors.push(price_error);
        }
        self.latest_stab_price_errors_total = new_total;
        self.last_changed_price = slot;
        if will_be_full {
            self.full_cache = true;
        }
        self.interest_rate = new_rate;
        self.internal_price = new_price;
        self.last_update = now;
        engine.change_internal_price(new_price);
        Ok(())
    }
    /// Forward fresh oracle prices to the engine, then run the
    /// controller step once enough minutes have passed.
    ///
    /// Run twice with no time in between and a positive update delay,
    /// the second call leaves the internal price, the interest rate
    /// and the whole ring-buffer state exactly as they were.
    #[verifier::rlimit(100)]
    #[verifier::spinoff_prover]
    pub fn update(
        &mut self,
        engine: &mut Stabilis,
        prices: &Vec<(u64, i128)>,
        market_stab_price: i128,
        now: i64,
    ) -> (r: Result<(), StabError>)
        requires
            old(self).wf(),
            old(engine).wf(),
            now >= old(self).last_update,
        ensures
            final(self).wf(),
            final(engine).wf(),
            r matches Err(e) ==> e == StabError::Overflow,
            final(self).base_price == spec_base_after(
                prices@,
                old(self).base_resource,
                old(self).base_price,
            ),
            final(engine).collaterals@.len() == old(engine).collaterals@.len(),
            forall|ci: int|
                0 <= ci < old(engine).collaterals@.len() ==> final(engine).collaterals@[ci]
                    == spec_priced_col(
                    *old(self),
                    *old(engine),
                    prices@,
                    old(engine).collaterals@[ci],
                ),
            now - old(self).last_update <= i64::MAX ==> {
                let mid = Proxy {
                    base_price: spec_base_after(
                        prices@,
                        old(self).base_resource,
                        old(self).base_price,
                    ),
                    ..*old(self)
                };
                let minutes = (now - old(self).last_update) / 60;
                &&& (minutes < old(self).update_delay ==> (r is Ok && *final(self) == mid
                    && final(engine).internal_stab_price == old(engine).internal_stab_price))
                &&& (minutes >= old(self).update_delay ==> {
                    &&& (r is Ok <==> mid.spec_controller_ok(market_stab_price, now))
                    &&& (r is Ok ==> {
                        &&& final(self).interest_rate as int == mid.spec_new_rate(
                            market_stab_price,
                            now,
                        )
                        &&& final(self).internal_price as int == mul_fp(
                            mid.internal_price as int,
                            pow_fp(
                                mid.spec_new_rate(market_stab_price, now),
                                mid.spec_minutes(now) as nat,
                            ),
                        )
                        &&& final(self).latest_stab_price_errors_total as int
                            == mid.spec_new_total(market_stab_price)
                        &&& final(self).last_update == now
                        &&& final(engine).internal_stab_price == final(self).internal_price
                    })
                })
            },
            r is Err ==> {
                &&& final(self).latest_stab_price_errors@ == old(
                    self,
                ).latest_stab_price_errors@
                &&& final(self).interest_rate == old(self).interest_rate
                &&& final(self).internal_price == old(self).internal_price
                &&& final(self).last_update == old(self).last_update
            },
            (now == old(self).last_update && old(self).update_delay >= 1) ==> {
                &&& final(self).internal_price == old(self).internal_price
                &&& final(self).interest_rate == old(self).interest_rate
                &&& final(self).latest_stab_price_errors@ == old(
                    self,
                ).latest_stab_price_errors@
                &&& final(self).latest_stab_price_errors_total == old(
                    self,
                ).latest_stab_price_errors_total
                &&& final(self).last_changed_price == old(self).last_changed_price
                &&& final(self).full_cache == old(self).full_cache
                &&& final(self).last_update == old(self).last_update
                &&& final(engine).internal_stab_price == old(engine).internal_stab_price
            },
    {
        let ghost pre = *self;
        let ghost epre = *engine;
        let mut i: usize = 0;
        while i < prices.len()
            invariant
                self.wf(),
                engine.wf(),
                epre.wf(),
                i <= prices@.len(),
                *self == (Proxy { base_price: self.base_price, ..pre }),
                self.base_price == spec_base_after(
                    prices@.subrange(0, i as int),
                    pre.base_resource,
                    pre.base_price,
                ),
                engine.collaterals@.len() == epre.collaterals@.len(),
                forall|ci: int|
                    0 <= ci < epre.collaterals@.len() ==> engine.collaterals@[ci]
                        == spec_priced_col(
                        pre,
                        epre,
                        prices@.subrange(0, i as int),
                        epre.collaterals@[ci],
                    ),
                engine.internal_stab_price == epre.internal_stab_price,
            decreases prices@.len() - i,
        {
            let ghost eloop = *engine;
            let ghost prefix = prices@.subrange(0, i as int);
            let (res, p) = prices[i];
            if res == self.base_resource {
                self.base_price = p;
            }
            let mut applied = false;
            if p > 0 && contains_res(&self.accepted_collaterals, res) {
                let outcome = engine.change_collateral_price(res, p);
                applied = outcome.is_ok();
            }
            i = i + 1;
            proof {
                let prefix2 = prices@.subrange(0, i as int);
                assert(prefix2.drop_last() =~= prefix);
                assert(prefix2.last() == prices@[i - 1]);
                assert(self.base_price == spec_base_after(
                    prefix2,
                    pre.base_resource,
                    pre.base_price,
                ));
                assert forall|ci: int|
                    0 <= ci < epre.collaterals@.len() implies engine.collaterals@[ci]
                    == spec_priced_col(pre, epre, prefix2, epre.collaterals@[ci]) by {
                    let rec = epre.collaterals@[ci];
                    let addr = rec.resource_address;
                    let recp = spec_priced_col(pre, epre, prefix, rec);
                    assert(eloop.collaterals@[ci] == recp);
                    assert(recp.resource_address == addr);
                    assert(recp.mcr == rec.mcr);
                    let applies = addr == res && p > 0
                        && pre.accepted_collaterals@.contains(addr) && epre.has_col(addr)
                        && fits_fp(div_fp(epre.internal_stab_price as int, p as int))
                        && fits_fp(
                        mul_fp(
                            rec.mcr as int,
                            div_fp(epre.internal_stab_price as int, p as int),
                        ),
                    );
                    assert(eloop.has_col(addr) == epre.has_col(addr)
                        && (epre.has_col(addr) ==> eloop.col_ix(addr) == epre.col_ix(addr)
                        && eloop.col(addr).mcr == epre.col(addr).mcr)) by {
                        lemma_col_lookup_same(epre, eloop, pre, prices@, i - 1);
                    }
                    if applied {
                        let ix = eloop.col_ix(res);
                        if ci == ix {
                            assert(epre.has_col(res));
                            assert(epre.col_ix(res) == ix);
                            assert(epre.col(res) == epre.collaterals@[ix]);
                            assert(addr == res);
                            assert(applies);
                            assert(engine.collaterals@[ci] == spec_priced_col(
                                pre,
                                epre,
                                prefix2,
                                rec,
                            ));
                        } else {
                            assert(engine.collaterals@[ci] == eloop.collaterals@[ci]);
                            assert(eloop.collaterals@[ix].resource_address == res);
                            assert(addr != res) by {
                                if addr == res {
                                    assert(eloop.collaterals@[ci].resource_address == res);
                                }
                            }
                            assert(!applies);
                            assert(spec_priced_col(pre, epre, prefix2, rec) == recp);
                        }
                    } else {
                        assert(*engine == eloop);
                        assert(!applies) by {
                            if applies {
                                assert(eloop.has_col(res));
                                assert(eloop.col(res).mcr == rec.mcr);
                            }
                        }
                        assert(spec_priced_col(pre, epre, prefix2, rec) == recp);
                    }
                }
            }
        }
        proof {
            assert(prices@.subrange(0, prices@.len() as int) =~= prices@);
        }
        let diff = match now.checked_sub(self.last_update) {
            Some(v) => v,
            None => {
                return Err(StabError::Overflow);
            },
        };
        let minutes: i64 = diff / 60;
        proof {
            assert(*self == (Proxy {
                base_price: spec_base_after(prices@, pre.base_resource, pre.base_price),
                ..pre
            }));
        }
        if minutes >= self.update_delay {
            self.update_internal_price(engine, market_stab_price, now)
        } else {
            Ok(())
        }
    }
}

/// After forwarding a prefix of the oracle list, collateral lookups
/// keep their answers: a price pass never changes which resources are
/// registered, where, or their ratio policy.
proof fn lemma_col_lookup_same(
    epre: Stabilis,
    eloop: Stabilis,
    pre: Proxy,
    prices: Seq<(u64, i128)>,
    i: int,
)
    requires
        epre.wf(),
        0 <= i <= prices.len(),
        eloop.collaterals@.len() == epre.collaterals@.len(),
        forall|ci: int|
            0 <= ci < epre.collaterals@.len() ==> eloop.collaterals@[ci] == spec_priced_col(
                pre,
                epre,
                prices.subrange(0, i),
                epre.collaterals@[ci],
            ),
    ensures
        forall|res: u64| #[trigger] eloop.has_col(res) == epre.has_col(res),
        forall|res: u64|
            #[trigger] epre.has_col(res) ==> eloop.col_ix(res) == epre.col_ix(res)
                && eloop.col(res).mcr == epre.col(res).mcr && eloop.col(res).resource_address
                == res,
{
    assert forall|ci: int|
        0 <= ci < epre.collaterals@.len() implies eloop.collaterals@[ci].resource_address
        == epre.collaterals@[ci].resource_address && eloop.collaterals@[ci].mcr
        == epre.collaterals@[ci].mcr by {
        assert(eloop.collaterals@[ci] == spec_priced_col(
            pre,
            epre,
            prices.subrange(0, i),
            epre.collaterals@[ci],
        ));
    }
    assert forall|res: u64| #[trigger] eloop.has_col(res) == epre.has_col(res) by {
        if epre.has_col(res) {
            let w = epre.col_ix(res);
            assert(eloop.collaterals@[w].resource_address == res);
        }
        if eloop.has_col(res) {
            let w = eloop.col_ix(res);
            assert(epre.collaterals@[w].resource_address == res);
        }
    }
    assert forall|res: u64| #[trigger]
        epre.has_col(res) implies eloop.col_ix(res) == epre.col_ix(res) && eloop.col(res).mcr
        == epre.col(res).mcr && eloop.col(res).resource_address == res by {
        let a = epre.col_ix(res);
        assert(eloop.collaterals@[a].resource_address == res);
        let b = eloop.col_ix(res);
        assert(eloop.collaterals@[b].resource_address == res);
        assert(epre.collaterals@[b].resource_address == res);
        if a < b {
            assert(epre.collaterals@[a].resource_address != epre.collaterals@[b].resource_address);
        } else if b < a {
            assert(epre.collaterals@[b].resource_address != epre.collaterals@[a].resource_address);
        }
    }
}

/// The base price after a pass over the oracle list: the last entry
/// naming the base resource wins.
pub open spec fn spec_base_after(prices: Seq<(u64, i128)>, res: u64, start: i128) -> i128
    decreases prices.len(),
{
    if prices.len() == 0 {
        start
    } else if prices.last().0 == res {
        prices.last().1
    } else {
        spec_base_after(prices.drop_last(), res, start)
    }
}

/// The market price a pass over the oracle list leaves on a
/// collateral: the last positive, accepted, representable entry for
/// that resource, if any.
pub open spec fn spec_applied_price(
    ctrl: Proxy,
    eng: Stabilis,
    prices: Seq<(u64, i128)>,
    res: u64,
) -> Option<i128>
    decreases prices.len(),
{
    if prices.len() == 0 {
        None
    } else {
        let lastp = prices.last();
        if lastp.0 == res && lastp.1 > 0 && ctrl.accepted_collaterals@.contains(res)
            && eng.has_col(res) && fits_fp(
            div_fp(eng.internal_stab_price as int, lastp.1 as int),
        ) && fits_fp(
            mul_fp(
                eng.col(res).mcr as int,
                div_fp(eng.internal_stab_price as int, lastp.1 as int),
            ),
        ) {
            Some(lastp.1)
        } else {
            spec_applied_price(ctrl, eng, prices.drop_last(), res)
        }
    }
}

/// The collateral record a pass over the oracle list leaves behind.
pub open spec fn spec_priced_col(
    ctrl: Proxy,
    eng: Stabilis,
    prices: Seq<(u64, i128)>,
    rec: crate::types::CollateralInfo,
) -> crate::types::CollateralInfo {
    match spec_applied_price(ctrl, eng, prices, rec.resource_address) {
        Some(px) => crate::types::CollateralInfo {
            usd_price: px,
            liquidation_collateral_ratio: (mul_fp(
                rec.mcr as int,
                div_fp(eng.internal_stab_price as int, px as int),
            )) as i128,
            ..rec
        },
        None => rec,
    }
}

/// Whether a resource id is listed.
fn contains_res(v: &Vec<u64>, res: u64) -> (r: bool)
    ensures
        r == v@.contains(res),
{
    let mut i: usize = 0;
    while i < v.len()
        invariant
            i <= v@.len(),
            forall|j: int| 0 <= j < i ==> v@[j] != res,
        decreases v@.len() - i,
    {
        if v[i] == res {
            proof {
                assert(v@[i as int] == res);
            }
            return true;
        }
        i = i + 1;
    }
    proof {
        if v@.contains(res) {
            let w = choose|w: int| 0 <= w < v@.len() && v@[w] == res;
            assert(false);
        }
    }
    false
}

} // verus!
