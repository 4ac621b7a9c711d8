use clamm::errors::EngineError;
use clamm::position::{
    calculate_x, calculate_y, get_liquidity, get_liquidity_0, get_liquidity_1, Position,
};
use clamm::tick::{sqrt_price_to_tick, tick_to_sqrt_price};

/// Square-root prices carry sixteen decimal places.
const GS: u128 = 10_000_000_000_000_000;
/// Amounts and liquidity carry nine decimal places.
const S: u64 = 1_000_000_000;

/// A fractional value as a scaled square-root price.
fn price(v: f64) -> u128 {
    (v * 1.0e16).round() as u128
}

#[test]
fn debug_info() {
    let p = 3227.02_f64;
    let a = 1626.3_f64;
    let b = 4846.3_f64;
    let x = 1_f64;
    let y = 5096.06_f64;
    println!("p = {}, a = {}, b = {}, x = {}, y = {}", p, a, b, x, y);
}

#[test]
fn get_liquidity_0_test() {
    let sa = price(1626.3_f64.powf(0.25));
    let sb = price(4846.3_f64.powf(0.25));
    let l_0 = get_liquidity_0(1 * S, sa, sb).unwrap() / S;
    assert_eq!(l_0, 26);
    println!("sa = {}, sb = {}, l_0 = {}", sa, sb, l_0);
}

#[test]
fn get_liquidity_1_test() {
    let sa = price(1626.3_f64.powf(0.25));
    let sb = price(4846.3_f64.powf(0.25));
    let y = (5096.06_f64 * 1.0e9).round() as u64;
    let l_1 = get_liquidity_1(y, sa, sb).unwrap() / S;
    assert_eq!(l_1, 2556);
    println!("sa = {}, sb = {}, l_1 = {}", sa, sb, l_1);
}

#[test]
fn get_liquidity_inside_range() {
    // Price strictly inside the range: the feasible minimum of the two
    // one-sided liquidities.  Only this case is representable: with the
    // bounds inverted the formulas give negative liquidity, which the
    // unsigned fixed-point domain (and the documented requirement that the
    // lower bound lie below the upper) rules out.
    let sp = price(3227.02_f64.sqrt());
    let sa = price(3000.3_f64.sqrt());
    let sb = price(3800.3_f64.sqrt());
    let y = (5096.06_f64 * 1.0e9).round() as u64;
    let l = get_liquidity(1 * S, y, sp, sa, sb).unwrap() / S;
    assert_eq!(l, 723);
}

#[test]
fn calculate_x_test() {
    let sp = price(3227.02_f64.sqrt());
    let sa = price(1626.3_f64.sqrt());
    let sb = price(4846.3_f64.sqrt());
    let x: u64 = 1;
    let y = (5096.06_f64 * 1.0e9).round() as u64;
    let l = get_liquidity(x * S, y, sp, sa, sb).unwrap();
    let x1 = calculate_x(l, sp, sa, sb).unwrap();
    assert_eq!(x, 1);
    assert_eq!(x1, 1 * S);
}

#[test]
fn calculate_y_test() {
    let sp = price(3227.02_f64.sqrt());
    let sa = price(1626.3_f64.sqrt());
    let sb = price(4846.3_f64.sqrt());
    let y = (5096.06_f64 * 1.0e9).round() as u64;
    let l = get_liquidity(1 * S, y, sp, sa, sb).unwrap();
    let y1 = calculate_y(l, sp, sa, sb).unwrap() / S;
    assert_eq!(y1, 5088);
}

#[test]
fn open_position() {
    let position =
        Position::new(String::new(), Some(50), None, 25 * GS, 121 * GS, 10 * GS).unwrap();
    assert!(position.owner_id == String::new());
    assert!(position.token0_locked / S == 50);
    assert!(position.token1_locked / S == 27504);
    assert!(position.liquidity / S == 5500);
    assert!(position.tick_lower_bound_price == 32190);
    assert!(position.tick_upper_bound_price == 47960);
    assert!(position.sqrt_lower_bound_price / GS == 4);
    assert!(position.sqrt_upper_bound_price / GS == 10);
}

#[test]
fn open_position_less_than_lower_bound() {
    let position =
        Position::new(String::new(), Some(50), None, 121 * GS, 144 * GS, 10 * GS).unwrap();
    assert!(position.token0_locked / S == 50);
    assert!(position.token1_locked == 0);
    assert!(position.liquidity / S == 6601);
    assert!(position.tick_lower_bound_price == 47960);
    assert!(position.tick_upper_bound_price == 49700);
}

#[test]
fn open_position_more_than_upper_bound() {
    let position =
        Position::new(String::new(), None, Some(50), 121 * GS, 144 * GS, 13 * GS).unwrap();
    assert!(position.token0_locked == 0);
    assert!(position.token1_locked / S == 50);
    assert!(position.liquidity / S == 50);
    assert!(position.tick_lower_bound_price == 47960);
    assert!(position.tick_upper_bound_price == 49700);
}

#[test]
fn open_position_wrong_order_x_zero() {
    let r = Position::new(String::new(), Some(0), None, 121 * GS, 144 * GS, price(11.5));
    assert_eq!(r.unwrap_err(), EngineError::NonPositiveAmount);
}

#[test]
fn open_position_wrong_order_x_not_zero_higher_than_upper_bound() {
    let r = Position::new(String::new(), Some(1), None, 121 * GS, 144 * GS, 13 * GS);
    assert_eq!(r.unwrap_err(), EngineError::WrongSide);
}

#[test]
fn open_position_wrong_order_y_zero() {
    let r = Position::new(String::new(), None, Some(0), 121 * GS, 144 * GS, price(11.5));
    assert_eq!(r.unwrap_err(), EngineError::NonPositiveAmount);
}

#[test]
fn open_position_wrong_order_y_not_zero_higher_than_upper_bound() {
    let r = Position::new(String::new(), None, Some(1), 121 * GS, 144 * GS, 10 * GS);
    assert_eq!(r.unwrap_err(), EngineError::WrongSide);
}

#[test]
fn ticks1() {
    let tick = 500;
    let sqrt_price = tick_to_sqrt_price(tick).unwrap();
    let new_tick = sqrt_price_to_tick(sqrt_price).unwrap();
    assert!(tick == new_tick);
}

#[test]
fn ticks2() {
    let sqrt_price = 10 * GS;
    let tick = sqrt_price_to_tick(sqrt_price).unwrap();
    assert!(tick == 46054);
    let new_sqrt_price = tick_to_sqrt_price(tick + 1).unwrap();
    println!("new_sqrt_price = {new_sqrt_price}");
    assert!(new_sqrt_price > sqrt_price);
    let new_tick = sqrt_price_to_tick(new_sqrt_price).unwrap();
    assert!(new_tick > tick)
}

#[test]
fn tick_round_trip_across_range() {
    for tick in [-50000, -12345, -1, 0, 1, 46054, 92108, 149999] {
        let p = tick_to_sqrt_price(tick).unwrap();
        assert_eq!(sqrt_price_to_tick(p).unwrap(), tick);
    }
}

#[test]
fn tick_out_of_range_is_refused() {
    assert_eq!(tick_to_sqrt_price(-50001).unwrap_err(), EngineError::InvalidRange);
    assert_eq!(tick_to_sqrt_price(150001).unwrap_err(), EngineError::InvalidRange);
    assert_eq!(sqrt_price_to_tick(0).unwrap_err(), EngineError::PriceOutOfRange);
    assert_eq!(sqrt_price_to_tick(u128::MAX).unwrap_err(), EngineError::PriceOutOfRange);
}

#[test]
fn position_incorrect_token() {
    let both = Position::new(String::new(), Some(5), Some(5), 25 * GS, 121 * GS, 10 * GS);
    assert_eq!(both.unwrap_err(), EngineError::IncorrectToken);
    let neither = Position::new(String::new(), None, None, 25 * GS, 121 * GS, 10 * GS);
    assert_eq!(neither.unwrap_err(), EngineError::IncorrectToken);
}

#[test]
fn position_invalid_range() {
    let empty = Position::new(String::new(), Some(5), None, 121 * GS, 121 * GS, 10 * GS);
    assert_eq!(empty.unwrap_err(), EngineError::InvalidRange);
    // Bounds so close that both snap to the same tick.
    let collapsed = Position::new(
        String::new(),
        Some(5),
        None,
        100 * GS,
        100 * GS + GS / 1000,
        5 * GS,
    );
    assert_eq!(collapsed.unwrap_err(), EngineError::InvalidRange);
}

#[test]
fn position_price_out_of_range() {
    let low = Position::new(String::new(), Some(5), None, 0, 121 * GS, 10 * GS);
    assert_eq!(low.unwrap_err(), EngineError::PriceOutOfRange);
    let high = Position::new(String::new(), Some(5), None, 25 * GS, u128::MAX, 10 * GS);
    assert_eq!(high.unwrap_err(), EngineError::PriceOutOfRange);
}

#[test]
fn position_amount_too_large() {
    let r = Position::new(String::new(), Some(u64::MAX), None, 25 * GS, 121 * GS, 10 * GS);
    assert_eq!(r.unwrap_err(), EngineError::Overflow);
}

#[test]
fn position_refresh_recomputes_locks() {
    let mut position =
        Position::new(String::new(), Some(50), None, 25 * GS, 121 * GS, 10 * GS).unwrap();
    position.refresh(8 * GS, 1000).unwrap();
    let x = calculate_x(
        position.liquidity,
        8 * GS,
        position.sqrt_lower_bound_price,
        position.sqrt_upper_bound_price,
    )
    .unwrap();
    let y = calculate_y(
        position.liquidity,
        8 * GS,
        position.sqrt_lower_bound_price,
        position.sqrt_upper_bound_price,
    )
    .unwrap();
    assert_eq!(position.token0_locked, x);
    assert_eq!(position.token1_locked, y);
    assert_eq!(position.token0_locked / S, 187);
    assert_eq!(position.token1_locked / S, 16503);
    assert!(position.is_active);
    assert_eq!(position.last_update, 1000);
}

#[test]
fn position_refresh_tracks_active_time() {
    let mut position =
        Position::new(String::new(), Some(50), None, 25 * GS, 121 * GS, 10 * GS).unwrap();
    assert!(position.is_active);
    position.refresh(10 * GS, 70).unwrap();
    assert_eq!(position.rewards_for_time, 70);
    position.refresh(10 * GS, 100).unwrap();
    assert_eq!(position.rewards_for_time, 100);
    // Deactivate by moving the price above the range; time no longer accrues.
    position.refresh(20 * GS, 150).unwrap();
    assert_eq!(position.rewards_for_time, 150);
    assert!(!position.is_active);
    position.refresh(20 * GS, 400).unwrap();
    assert_eq!(position.rewards_for_time, 150);
}

#[test]
fn position_add_then_remove_liquidity() {
    let mut position =
        Position::new(String::new(), Some(50), None, 25 * GS, 121 * GS, 10 * GS).unwrap();
    let l0 = position.liquidity;
    position.add_liquidity(Some(50), None, 10 * GS).unwrap();
    assert_eq!(position.token0_locked / S, 100);
    assert!(position.liquidity > l0);
    position.remove_liquidity(Some(50), None, 10 * GS).unwrap();
    assert_eq!(position.token0_locked / S, 50);
    assert_eq!(position.liquidity, l0);
}

#[test]
fn position_remove_all_is_refused() {
    let mut position =
        Position::new(String::new(), Some(50), None, 25 * GS, 121 * GS, 10 * GS).unwrap();
    let r = position.remove_liquidity(Some(50), None, 10 * GS);
    assert_eq!(r.unwrap_err(), EngineError::NonPositiveAmount);
    assert_eq!(position.token0_locked / S, 50);
}

#[test]
fn position_add_liquidity_wrong_side() {
    let mut position =
        Position::new(String::new(), None, Some(50), 121 * GS, 144 * GS, 13 * GS).unwrap();
    let r = position.add_liquidity(Some(5), None, 13 * GS);
    assert_eq!(r.unwrap_err(), EngineError::WrongSide);
}

#[test]
fn position_default_is_empty() {
    let d = Position::default();
    assert_eq!(d.owner_id, String::new());
    assert_eq!(d.liquidity, 0);
    assert_eq!(d.token0_locked, 0);
    assert_eq!(d.token1_locked, 0);
    assert!(!d.is_active);
}

#[test]
fn grid_stays_below_cap() {
    // Every representable rung is below the saturation cap, so the grid
    // is strictly increasing and the tick round trip holds across the
    // whole representable range.
    assert!(clamm::tick::grid_within_cap());
}
