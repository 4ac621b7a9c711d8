//! Swap engine of a concentrated-liquidity automated market maker for a
//! two-asset pool.
//!
//! Liquidity providers commit capital into bounded price ranges; traders
//! exchange one asset for the other at prices derived from the aggregate
//! liquidity active at the current price.  The engine answers, for a given
//! input amount, how much output can be delivered and at what final price,
//! and symmetrically how much input a desired output requires, attributing
//! a configurable fraction of the traded volume to the providers whose
//! ranges straddle the price.
//!
//! All quantities are unsigned fixed-point integers: token amounts and
//! liquidity carry nine decimal places (`AMOUNT_SCALE`), square roots of
//! prices carry sixteen (`PRICE_SCALE`).  Prices live on a geometric grid
//! of integer ticks whose per-tick ratio is one basis point.

use vstd::prelude::*;

pub mod errors;
pub mod fees;
pub mod fixed;
pub mod pool;
pub mod position;
pub mod tick;

verus! {

/// Fixed-point scale of token amounts and liquidity: nine decimal places.
pub const AMOUNT_SCALE: u64 = 1_000_000_000;

/// Fixed-point scale of square-root prices: sixteen decimal places.
pub const PRICE_SCALE: u128 = 10_000_000_000_000_000;

} // verus!
