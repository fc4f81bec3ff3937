use stabilis::controller::Proxy;
use stabilis::engine::Stabilis;
use stabilis::fixed::SCALE;

const STAB: u64 = 99;
const COL_A: u64 = 1;
const BASE: u64 = 2;

fn dec(n: i128) -> i128 {
    n * SCALE
}

fn setup() -> (Proxy, Stabilis) {
    let mut engine = Stabilis::new(STAB);
    engine.add_collateral(COL_A, 3 * SCALE / 2, dec(1)).unwrap();
    let mut proxy = Proxy::new(BASE, dec(1));
    proxy.add_accepted_collateral(COL_A);
    (proxy, engine)
}

#[test]
fn update_forwards_oracle_prices() {
    let (mut proxy, mut engine) = setup();
    let prices = vec![(BASE, dec(1)), (COL_A, dec(2))];
    proxy.set_update_delays(10);
    proxy.update(&mut engine, &prices, dec(1), 0).unwrap();
    assert_eq!(engine.collaterals[0].usd_price, dec(2));
    // threshold re-derived: 1.5 * 1 / 2
    assert_eq!(engine.collaterals[0].liquidation_collateral_ratio, 75 * SCALE / 100);
}

#[test]
fn update_twice_without_time_is_idempotent() {
    let (mut proxy, mut engine) = setup();
    proxy.set_update_delays(1);
    let prices = vec![(BASE, dec(1)), (COL_A, dec(1))];
    // a first run at minute two moves the controller
    proxy.update(&mut engine, &prices, 2 * dec(1), 120).unwrap();
    let rate = proxy.interest_rate;
    let price = proxy.internal_price;
    let total = proxy.latest_stab_price_errors_total;
    let slot = proxy.last_changed_price;
    let buffer = proxy.latest_stab_price_errors.clone();
    // a second run with no time elapsed changes nothing
    proxy.update(&mut engine, &prices, 2 * dec(1), 120).unwrap();
    assert_eq!(proxy.interest_rate, rate);
    assert_eq!(proxy.internal_price, price);
    assert_eq!(proxy.latest_stab_price_errors_total, total);
    assert_eq!(proxy.last_changed_price, slot);
    assert_eq!(proxy.latest_stab_price_errors, buffer);
}

#[test]
fn positive_error_drives_the_rate_down() {
    let (mut proxy, mut engine) = setup();
    proxy.set_update_delays(0);
    let prices = vec![(BASE, dec(1))];
    // market sits well above the target: error 1.0 capped at 0.5
    let mut last_rate = proxy.interest_rate;
    let mut now = 60;
    for _ in 0..5 {
        proxy.update(&mut engine, &prices, 2 * dec(1), now).unwrap();
        assert!(proxy.interest_rate <= last_rate);
        last_rate = proxy.interest_rate;
        now += 60;
    }
    assert!(proxy.interest_rate < SCALE);
    assert!(proxy.interest_rate >= proxy.min_interest_rate);
}

#[test]
fn compounding_moves_the_internal_price() {
    let (mut proxy, mut engine) = setup();
    proxy.set_update_delays(0);
    let prices = vec![(BASE, dec(1))];
    proxy.update(&mut engine, &prices, 2 * dec(1), 60).unwrap();
    // one step: the rate dropped below one, the price compounds by it
    proxy.update(&mut engine, &prices, 2 * dec(1), 120).unwrap();
    assert!(proxy.internal_price < dec(1));
    assert_eq!(engine.internal_stab_price, proxy.internal_price);
}

#[test]
fn error_within_band_leaves_rate_unchanged() {
    let (mut proxy, mut engine) = setup();
    proxy.set_update_delays(0);
    let prices = vec![(BASE, dec(1))];
    // market equals the target: zero error, inside the allowed band
    proxy.update(&mut engine, &prices, dec(1), 60).unwrap();
    assert_eq!(proxy.interest_rate, SCALE);
    assert_eq!(proxy.internal_price, dec(1));
}

#[test]
fn ring_buffer_wraps_around() {
    let (mut proxy, mut engine) = setup();
    proxy.set_number_of_prices_cached(2);
    proxy.set_update_delays(0);
    let prices = vec![(BASE, dec(1))];
    let mut now = 60;
    for _ in 0..3 {
        proxy.update(&mut engine, &prices, 2 * dec(1), now).unwrap();
        now += 60;
    }
    assert!(proxy.full_cache);
    assert_eq!(proxy.latest_stab_price_errors.len(), 2);
    assert_eq!(proxy.last_changed_price, 1);
}

#[test]
fn fixed_point_power_matches_whole_powers() {
    // 1.5 squared is 2.25 at the fixed-point scale
    let base = 15 * SCALE / 10;
    let sq = stabilis::fixed::dec_pow(base, 2).unwrap();
    assert_eq!(sq, 225 * SCALE / 100);
    assert_eq!(stabilis::fixed::dec_pow(base, 0).unwrap(), SCALE);
    assert_eq!(stabilis::fixed::dec_pow(dec(2), 10).unwrap(), dec(1024));
}

#[test]
fn fixed_point_mul_and_div_truncate_toward_zero() {
    assert_eq!(stabilis::fixed::dec_mul(dec(3), dec(2)).unwrap(), dec(6));
    assert_eq!(stabilis::fixed::dec_div(dec(1), dec(3)).unwrap(), 333_333_333_333_333_333);
    assert_eq!(stabilis::fixed::dec_mul(7, 1).unwrap(), 0);
    assert_eq!(stabilis::fixed::dec_div(dec(1), 0), None);
    assert_eq!(stabilis::fixed::dec_mul(-dec(3), dec(2)).unwrap(), -dec(6));
    assert_eq!(stabilis::fixed::dec_div(-dec(1), dec(3)).unwrap(), -333_333_333_333_333_333);
}
