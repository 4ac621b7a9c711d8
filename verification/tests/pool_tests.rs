use clamm::errors::EngineError;
use clamm::pool::{Pool, SwapDirection};
use clamm::position::Position;
use clamm::tick::sqrt_price_to_tick;

/// Square-root prices carry sixteen decimal places.
const GS: u128 = 10_000_000_000_000_000;
/// Amounts and liquidity carry nine decimal places.
const S: u64 = 1_000_000_000;

fn simple_pool(price: u128, protocol_fee: u16, rewards: u16) -> Pool {
    Pool::new("first".to_string(), "second".to_string(), price, protocol_fee, rewards).unwrap()
}

#[test]
fn pool_get_expense_x() {
    let mut pool = simple_pool(49 * GS, 0, 0);
    let position =
        Position::new(String::new(), Some(50), None, 1 * GS, 10000 * GS, 7 * GS).unwrap();
    assert!(position.liquidity / S == 376);
    pool.open_position(position).unwrap();
    let token0 = pool.token0.clone();
    let exp = pool.get_swap_result(&token0, 10, SwapDirection::Expense).unwrap();
    assert!(exp.amount / S as u128 == 601);
    assert!(exp.new_sqrt_price / GS == 8);
    assert!(exp.new_liquidity / S == 376);
}

#[test]
fn pool_get_expense_y() {
    let mut pool = simple_pool(49 * GS, 0, 0);
    let position =
        Position::new(String::new(), Some(50), None, 1 * GS, 10000 * GS, 7 * GS).unwrap();
    assert!(position.liquidity / S == 376);
    pool.open_position(position).unwrap();
    let token1 = pool.token1.clone();
    let exp = pool.get_swap_result(&token1, 10, SwapDirection::Expense).unwrap();
    assert!(exp.amount / S as u128 == 0);
    assert!(exp.new_sqrt_price / GS == 6);
    assert!(exp.new_liquidity / S == 376);
}

#[test]
fn pool_get_return_x() {
    let mut pool = simple_pool(100 * GS, 0, 0);
    let position =
        Position::new(String::new(), Some(50), None, 1 * GS, 10000 * GS, 10 * GS).unwrap();
    assert!(position.liquidity / S == 555);
    pool.open_position(position).unwrap();
    let token0 = pool.token0.clone();
    let exp = pool.get_swap_result(&token0, 1, SwapDirection::Return).unwrap();
    assert!(exp.amount / S as u128 == 98);
    assert!(exp.new_sqrt_price / GS == 9);
    assert!(exp.new_liquidity / S == 555);
}

#[test]
fn pool_get_return_y() {
    let mut pool = simple_pool(100 * GS, 0, 0);
    let position =
        Position::new(String::new(), Some(50), None, 1 * GS, 10000 * GS, 10 * GS).unwrap();
    assert!(position.liquidity / S == 555);
    pool.open_position(position).unwrap();
    let token1 = pool.token1.clone();
    let exp = pool.get_swap_result(&token1, 1000, SwapDirection::Return).unwrap();
    assert!(exp.amount / S as u128 == 8);
    assert!(exp.new_sqrt_price / GS == 11);
    assert!(exp.new_liquidity / S == 555);
}

#[test]
fn pool_get_expense_x_out_within_one_tick() {
    let mut pool = simple_pool(25 * GS, 0, 0);
    let position =
        Position::new(String::new(), Some(10), None, 20 * GS, 26 * GS, 5 * GS).unwrap();
    pool.open_position(position).unwrap();
    let token0 = pool.token0.clone();
    let exp = pool.get_swap_result(&token0, 1, SwapDirection::Expense).unwrap();
    let new_tick = sqrt_price_to_tick(exp.new_sqrt_price).unwrap();
    assert_ne!(new_tick, pool.tick);
    println!("new_tick = {}", new_tick);
    println!("pool_tick = {}", pool.tick);
}

#[test]
fn pool_get_expense_y_out_within_one_tick() {
    let mut pool = simple_pool(25 * GS, 0, 0);
    let position =
        Position::new(String::new(), Some(10), None, 20 * GS, 26 * GS, 5 * GS).unwrap();
    pool.open_position(position).unwrap();
    let token1 = pool.token1.clone();
    let exp = pool.get_swap_result(&token1, 1, SwapDirection::Expense).unwrap();
    let new_tick = sqrt_price_to_tick(exp.new_sqrt_price).unwrap();
    assert_ne!(new_tick, pool.tick);
}

#[test]
fn pool_get_expense_x_in_within_one_tick() {
    let mut pool = simple_pool(100 * GS, 0, 0);
    let position =
        Position::new(String::new(), Some(500), None, 99 * GS, 101 * GS, 10 * GS).unwrap();
    pool.open_position(position).unwrap();
    let token0 = pool.token0.clone();
    let exp = pool.get_swap_result(&token0, 5, SwapDirection::Expense).unwrap();
    let new_tick = sqrt_price_to_tick(exp.new_sqrt_price).unwrap();
    assert_eq!(new_tick, pool.tick);
}

#[test]
fn pool_get_expense_y_in_within_one_tick() {
    let mut pool = simple_pool(100 * GS, 0, 0);
    let position =
        Position::new(String::new(), Some(500), None, 99 * GS, 101 * GS, 10 * GS).unwrap();
    // The liquidity of this narrow range is very sensitive to where its
    // upper bound snaps on the grid: the grid's rounding gives 1012698
    // where a double-precision computation gives 1007493.
    assert_eq!(position.liquidity / S, 1_012_698);
    pool.open_position(position).unwrap();
    let token1 = pool.token1.clone();
    let exp = pool.get_swap_result(&token1, 1, SwapDirection::Expense).unwrap();
    let new_tick = sqrt_price_to_tick(exp.new_sqrt_price).unwrap();
    assert_eq!(new_tick, pool.tick);
}

#[test]
fn pool_get_return_x_partial_step() {
    // A one-token input consumed inside a partial step: the price moves
    // down just across the lower edge of the starting tick interval.
    let mut pool = simple_pool(100 * GS, 0, 0);
    let position =
        Position::new(String::new(), Some(500), None, 99 * GS, 101 * GS, 10 * GS).unwrap();
    pool.open_position(position).unwrap();
    let token0 = pool.token0.clone();
    let exp = pool.get_swap_result(&token0, 1, SwapDirection::Return).unwrap();
    let new_tick = sqrt_price_to_tick(exp.new_sqrt_price).unwrap();
    assert_eq!(new_tick, pool.tick - 1);
    assert_eq!(exp.amount / S as u128, 99);
}

#[test]
fn pool_get_return_y_within_one_tick() {
    let mut pool = simple_pool(100 * GS, 0, 0);
    let position =
        Position::new(String::new(), Some(500), None, 99 * GS, 101 * GS, 10 * GS).unwrap();
    pool.open_position(position).unwrap();
    let token1 = pool.token1.clone();
    let exp = pool.get_swap_result(&token1, 1, SwapDirection::Return).unwrap();
    let new_tick = sqrt_price_to_tick(exp.new_sqrt_price).unwrap();
    assert!(new_tick == pool.tick);
}

#[test]
fn pool_get_return_not_enough_liquidity() {
    let pool = simple_pool(100 * GS, 0, 0);
    let token1 = pool.token1.clone();
    let r = pool.get_swap_result(&token1, 1000, SwapDirection::Return);
    assert_eq!(r.unwrap_err(), EngineError::InsufficientLiquidity);
}

#[test]
fn pool_get_expense_not_enough_liquidity() {
    let pool = simple_pool(100 * GS, 0, 0);
    let token1 = pool.token1.clone();
    let r = pool.get_swap_result(&token1, 1000, SwapDirection::Expense);
    assert_eq!(r.unwrap_err(), EngineError::InsufficientLiquidity);
}

#[test]
fn pool_get_amount_many_positions() {
    let mut pool = simple_pool(100 * GS, 0, 0);
    for i in 1..100u64 {
        let position = Position::new(
            String::new(),
            Some(i * 100),
            None,
            (100 - i as u128) * GS,
            (100 + i as u128) * GS,
            10 * GS,
        )
        .unwrap();
        pool.open_position(position).unwrap();
    }
    let token0 = pool.token0.clone();
    let token1 = pool.token1.clone();
    pool.get_swap_result(&token0, 1_000_000, SwapDirection::Return).unwrap();
    pool.get_swap_result(&token1, 1_000_000, SwapDirection::Expense).unwrap();
}

#[test]
fn pool_apply_swap_result_return() {
    let mut pool = simple_pool(100 * GS, 0, 0);
    let position =
        Position::new(String::new(), Some(50), None, 1 * GS, 10000 * GS, 10 * GS).unwrap();
    assert!(position.liquidity / S == 555);
    pool.open_position(position).unwrap();
    let token0 = pool.token0.clone();
    let result = pool.get_swap_result(&token0, 1, SwapDirection::Return).unwrap();
    pool.apply_swap_result(&result).unwrap();
    assert!(pool.sqrt_price / GS == 9);
    assert!(pool.liquidity / S == 555);
    assert_eq!(pool.sqrt_price, result.new_sqrt_price);
    assert_eq!(pool.tick, sqrt_price_to_tick(pool.sqrt_price).unwrap());
}

#[test]
fn pool_apply_swap_result_expense() {
    let mut pool = simple_pool(49 * GS, 0, 0);
    let position =
        Position::new(String::new(), Some(50), None, 1 * GS, 10000 * GS, 7 * GS).unwrap();
    pool.open_position(position).unwrap();
    let token1 = pool.token1.clone();
    let result = pool.get_swap_result(&token1, 10, SwapDirection::Expense).unwrap();
    pool.apply_swap_result(&result).unwrap();
    assert!(pool.sqrt_price / GS == 6);
    assert!(pool.liquidity / S == 376);
}

#[test]
fn pool_fees_expense() {
    let mut pool = simple_pool(49 * GS, 100, 100);
    let position =
        Position::new("user.near".to_string(), Some(50), None, 1 * GS, 10000 * GS, 7 * GS)
            .unwrap();
    pool.open_position(position).unwrap();
    let token1 = pool.token1.clone();
    let result = pool.get_swap_result(&token1, 10, SwapDirection::Expense).unwrap();
    let amount = result.amount / 100;
    let fee = result.collected_fees.get(&"user.near".to_string()).unwrap();
    let diff = if amount > fee { amount - fee } else { fee - amount };
    // Within 1e-5 of a token: ten thousand scaled units.
    assert!(diff < 10_000);
}

#[test]
fn pool_fees_return() {
    let mut pool = simple_pool(49 * GS, 100, 100);
    let position =
        Position::new("user.near".to_string(), Some(50), None, 1 * GS, 10000 * GS, 7 * GS)
            .unwrap();
    pool.open_position(position).unwrap();
    let token1 = pool.token1.clone();
    let result = pool.get_swap_result(&token1, 10, SwapDirection::Return).unwrap();
    let amount = result.amount / 100;
    let fee = result.collected_fees.get(&"user.near".to_string()).unwrap();
    let diff = if amount > fee { amount - fee } else { fee - amount };
    assert!(diff < 10_000);
}

#[test]
fn pool_fees2() {
    let mut pool = simple_pool(49 * GS, 100, 100);
    for _ in 0..9 {
        let position =
            Position::new("user.near".to_string(), Some(50), None, 1 * GS, 10000 * GS, 7 * GS)
                .unwrap();
        pool.open_position(position).unwrap();
    }
    let token1 = pool.token1.clone();
    let result = pool.get_swap_result(&token1, 10, SwapDirection::Expense).unwrap();
    let amount = result.amount / 100;
    let fee = result.collected_fees.get(&"user.near".to_string()).unwrap();
    let diff = if amount > fee { amount - fee } else { fee - amount };
    assert!(diff < 10_000);
}

#[test]
fn pool_new_tick_matches_price() {
    let pool = simple_pool(49 * GS, 0, 0);
    assert_eq!(pool.sqrt_price, 7 * GS);
    assert_eq!(pool.tick, sqrt_price_to_tick(pool.sqrt_price).unwrap());
    assert_eq!(pool.liquidity, 0);
    assert_eq!(pool.get_sqrt_price(), 7 * GS);
}

#[test]
fn pool_refresh_liquidity_matches_active_sum() {
    let mut pool = simple_pool(49 * GS, 0, 0);
    let in_range =
        Position::new(String::new(), Some(50), None, 1 * GS, 10000 * GS, 7 * GS).unwrap();
    let above =
        Position::new(String::new(), Some(50), None, 121 * GS, 144 * GS, 7 * GS).unwrap();
    let l_active = in_range.liquidity;
    pool.open_position(in_range).unwrap();
    pool.open_position(above).unwrap();
    assert_eq!(pool.liquidity, l_active);
    pool.refresh_liquidity();
    assert_eq!(pool.liquidity, l_active);
}

#[test]
fn pool_open_close_restores_liquidity() {
    let mut pool = simple_pool(49 * GS, 0, 0);
    let first =
        Position::new(String::new(), Some(50), None, 1 * GS, 10000 * GS, 7 * GS).unwrap();
    pool.open_position(first).unwrap();
    let before = pool.liquidity;
    let second =
        Position::new(String::new(), Some(80), None, 25 * GS, 100 * GS, 7 * GS).unwrap();
    pool.open_position(second).unwrap();
    assert!(pool.liquidity > before);
    pool.close_position(1);
    assert_eq!(pool.liquidity, before);
    assert_eq!(pool.positions.len(), 1);
}

#[test]
fn pool_refresh_positions_updates_all() {
    let mut pool = simple_pool(49 * GS, 0, 0);
    let p1 = Position::new(String::new(), Some(50), None, 1 * GS, 10000 * GS, 7 * GS).unwrap();
    let p2 = Position::new(String::new(), Some(50), None, 121 * GS, 144 * GS, 7 * GS).unwrap();
    pool.open_position(p1).unwrap();
    pool.open_position(p2).unwrap();
    pool.refresh_positions(500).unwrap();
    assert_eq!(pool.positions[0].last_update, 500);
    assert_eq!(pool.positions[1].last_update, 500);
    assert!(pool.positions[0].is_active);
    assert!(!pool.positions[1].is_active);
    assert_eq!(pool.tick, sqrt_price_to_tick(pool.sqrt_price).unwrap());
}

#[test]
fn pool_swap_zero_amount() {
    let mut pool = simple_pool(49 * GS, 0, 0);
    let position =
        Position::new(String::new(), Some(50), None, 1 * GS, 10000 * GS, 7 * GS).unwrap();
    let l = position.liquidity;
    pool.open_position(position).unwrap();
    let token0 = pool.token0.clone();
    let r = pool.get_swap_result(&token0, 0, SwapDirection::Return).unwrap();
    assert_eq!(r.amount, 0);
    assert_eq!(r.new_sqrt_price, pool.sqrt_price);
    assert_eq!(r.new_liquidity, l);
    assert!(r.collected_fees.get(&String::new()).is_none());
}

#[test]
fn pool_fee_ledger_absent_owner() {
    let mut pool = simple_pool(49 * GS, 100, 100);
    let position =
        Position::new("user.near".to_string(), Some(50), None, 1 * GS, 10000 * GS, 7 * GS)
            .unwrap();
    pool.open_position(position).unwrap();
    let token1 = pool.token1.clone();
    let result = pool.get_swap_result(&token1, 10, SwapDirection::Expense).unwrap();
    assert!(result.collected_fees.get(&"someone.else".to_string()).is_none());
    assert!(result.collected_fees.get(&"user.near".to_string()).is_some());
}

#[test]
fn pool_empty_any_request_fails() {
    let pool = simple_pool(100 * GS, 0, 0);
    let token0 = pool.token0.clone();
    let token1 = pool.token1.clone();
    for direction in [SwapDirection::Return, SwapDirection::Expense] {
        for token in [&token0, &token1] {
            let r = pool.get_swap_result(token, 7, direction);
            assert_eq!(r.unwrap_err(), EngineError::InsufficientLiquidity);
        }
    }
}
