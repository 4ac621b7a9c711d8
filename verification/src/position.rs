//! A single provider's committed price range and the closed-form range
//! arithmetic: deriving liquidity from a one-sided deposit and recomputing
//! both locked amounts when the pool price moves.
//!
//! Every executable function mirrors a spec function over `int` arithmetic
//! exactly, including its error cases; the spec functions are the ground
//! truth for the amounts locked by a range.

use vstd::prelude::*;

use crate::errors::EngineError;
use crate::fixed::{isqrt, mul_div, spec_isqrt};
use crate::tick::{
    lemma_bracket_unique, locate, spec_grid, tick_brackets, GRID_BASE, GRID_LIMIT, N_TICKS,
    TICK_FLOOR,
};
use crate::AMOUNT_SCALE;
use crate::PRICE_SCALE;

verus! {

/// `PRICE_SCALE` squared: scale of a reciprocal square-root price.
pub const RECIP_SCALE: u128 = 100_000_000_000_000_000_000_000_000_000_000;

/// Largest price accepted as input: any more and scaling it for the
/// integer square root would overflow 128 bits.
pub const PRICE_INPUT_MAX: u128 = 34_028_236_692_093_846_346_337;

/// Largest token amount accepted as input: any more and scaling it by
/// `AMOUNT_SCALE` would overflow 64 bits.
pub const AMOUNT_INPUT_MAX: u64 = 18_446_744_073;

/// Reciprocal of a square-root price, scaled by `PRICE_SCALE`.
pub open spec fn spec_recip(p: int) -> int {
    (RECIP_SCALE as int) / p
}

/// Clamp `sp` into `[sa, sb]`.
pub open spec fn spec_clamp(sp: int, sa: int, sb: int) -> int {
    if sp > sb {
        sb
    } else if sp < sa {
        sa
    } else {
        sp
    }
}

/// Liquidity from a pure token0 amount over `[sa, sb]`:
/// `x * sa * sb / (sb - sa)`, computed through reciprocals.
pub open spec fn spec_liq0(x: int, sa: int, sb: int) -> Result<u64, EngineError> {
    if sa < 1 || sb <= sa {
        Err(EngineError::InvalidRange)
    } else {
        let rd = spec_recip(sa) - spec_recip(sb);
        if rd <= 0 {
            Err(EngineError::InvalidRange)
        } else {
            let l = x * (PRICE_SCALE as int) / rd;
            if l > u64::MAX {
                Err(EngineError::Overflow)
            } else {
                Ok(l as u64)
            }
        }
    }
}

/// Liquidity from a pure token1 amount over `[sa, sb]`: `y / (sb - sa)`.
pub open spec fn spec_liq1(y: int, sa: int, sb: int) -> Result<u64, EngineError> {
    if sa < 1 || sb <= sa {
        Err(EngineError::InvalidRange)
    } else {
        let l = y * (PRICE_SCALE as int) / (sb - sa);
        if l > u64::MAX {
            Err(EngineError::Overflow)
        } else {
            Ok(l as u64)
        }
    }
}

/// Token0 locked by liquidity `l` at price `sp`, clamped to `[sa, sb]`:
/// `l * (sb - clamp(sp)) / (clamp(sp) * sb)`, computed through reciprocals.
pub open spec fn spec_calc_x(l: int, sp: int, sa: int, sb: int) -> Result<u64, EngineError> {
    if sa < 1 || sb <= sa {
        Err(EngineError::InvalidRange)
    } else {
        let c = spec_clamp(sp, sa, sb);
        let x = l * (PRICE_SCALE as int) / c - l * (PRICE_SCALE as int) / sb;
        if x > u64::MAX {
            Err(EngineError::Overflow)
        } else {
            Ok(x as u64)
        }
    }
}

/// Token1 locked by liquidity `l` at price `sp`, clamped to `[sa, sb]`:
/// `l * (clamp(sp) - sa)`.
pub open spec fn spec_calc_y(l: int, sp: int, sa: int, sb: int) -> Result<u64, EngineError> {
    if sa < 1 || sb <= sa {
        Err(EngineError::InvalidRange)
    } else {
        let c = spec_clamp(sp, sa, sb);
        if c - sa > 0 && l > u128::MAX as int / (c - sa) {
            Err(EngineError::Overflow)
        } else {
            let y = l * (c - sa) / (PRICE_SCALE as int);
            if y > u64::MAX {
                Err(EngineError::Overflow)
            } else {
                Ok(y as u64)
            }
        }
    }
}

/// Reciprocal of a square-root price, executable.
fn recip(p: u128) -> (r: u128)
    requires
        p >= 1,
    ensures
        r == spec_recip(p as int),
{
    RECIP_SCALE / p
}

/// Liquidity from a pure token0 amount `x` over the range `[sa, sb]`.
pub fn get_liquidity_0(x: u64, sa: u128, sb: u128) -> (r: Result<u64, EngineError>)
    ensures
        r == spec_liq0(x as int, sa as int, sb as int),
{
    if sa < 1 || sb <= sa {
        return Err(EngineError::InvalidRange);
    }
    let ra = recip(sa);
    let rb = recip(sb);
    proof {
        assert((RECIP_SCALE as int) / (sa as int) >= (RECIP_SCALE as int) / (sb as int)) by (nonlinear_arith)
            requires
                1 <= sa <= sb,
        ;
    }
    let rd = ra - rb;
    if rd == 0 {
        return Err(EngineError::InvalidRange);
    }
    proof {
        assert((x as int) * (PRICE_SCALE as int) <= u128::MAX) by (nonlinear_arith)
            requires
                0 <= x <= u64::MAX,
        ;
    }
    let l = mul_div(x as u128, PRICE_SCALE, rd);
    if l > u64::MAX as u128 {
        return Err(EngineError::Overflow);
    }
    Ok(l as u64)
}

/// Liquidity from a pure token1 amount `y` over the range `[sa, sb]`.
pub fn get_liquidity_1(y: u64, sa: u128, sb: u128) -> (r: Result<u64, EngineError>)
    ensures
        r == spec_liq1(y as int, sa as int, sb as int),
{
    if sa < 1 || sb <= sa {
        return Err(EngineError::InvalidRange);
    }
    proof {
        assert((y as int) * (PRICE_SCALE as int) <= u128::MAX) by (nonlinear_arith)
            requires
                0 <= y <= u64::MAX,
        ;
    }
    let l = mul_div(y as u128, PRICE_SCALE, sb - sa);
    if l > u64::MAX as u128 {
        return Err(EngineError::Overflow);
    }
    Ok(l as u64)
}

/// Token0 implied by liquidity `l` at price `sp` over `[sa, sb]`.
pub fn calculate_x(l: u64, sp: u128, sa: u128, sb: u128) -> (r: Result<u64, EngineError>)
    ensures
        r == spec_calc_x(l as int, sp as int, sa as int, sb as int),
{
    if sa < 1 || sb <= sa {
        return Err(EngineError::InvalidRange);
    }
    let c = if sp > sb {
        sb
    } else if sp < sa {
        sa
    } else {
        sp
    };
    proof {
        assert((l as int) * (PRICE_SCALE as int) <= u128::MAX) by (nonlinear_arith)
            requires
                0 <= l <= u64::MAX,
        ;
        assert((l as int) * (PRICE_SCALE as int) / (c as int) >= (l as int) * (PRICE_SCALE as int)
            / (sb as int)) by (nonlinear_arith)
            requires
                1 <= c <= sb,
                0 <= l,
        ;
    }
    let hi = mul_div(l as u128, PRICE_SCALE, c);
    let lo = mul_div(l as u128, PRICE_SCALE, sb);
    let x = hi - lo;
    if x > u64::MAX as u128 {
        return Err(EngineError::Overflow);
    }
    Ok(x as u64)
}

/// Token1 implied by liquidity `l` at price `sp` over `[sa, sb]`.
pub fn calculate_y(l: u64, sp: u128, sa: u128, sb: u128) -> (r: Result<u64, EngineError>)
    ensures
        r == spec_calc_y(l as int, sp as int, sa as int, sb as int),
{
    if sa < 1 || sb <= sa {
        return Err(EngineError::InvalidRange);
    }
    let c = if sp > sb {
        sb
    } else if sp < sa {
        sa
    } else {
        sp
    };
    let d = c - sa;
    if d > 0 && (l as u128) > u128::MAX / d {
        return Err(EngineError::Overflow);
    }
    proof {
        if d > 0 {
            assert((l as int) * (d as int) <= u128::MAX) by (nonlinear_arith)
                requires
                    d > 0,
                    0 <= l,
                    l <= (u128::MAX as int) / (d as int),
            ;
        }
    }
    let y = mul_div(l as u128, d, PRICE_SCALE);
    if y > u64::MAX as u128 {
        return Err(EngineError::Overflow);
    }
    Ok(y as u64)
}

/// Feasible liquidity of a deposit of both `x` and `y` at price `sp`:
/// piecewise by the position of `sp` against the range, taking the
/// minimum where both sides constrain.  A diagnostic helper.
pub fn get_liquidity(x: u64, y: u64, sp: u128, sa: u128, sb: u128) -> (r: Result<
    u64,
    EngineError,
>)
    ensures
        r == spec_get_liquidity(x as int, y as int, sp as int, sa as int, sb as int),
{
    if sp <= sa {
        get_liquidity_0(x, sa, sb)
    } else if sp < sb {
        let l0 = match get_liquidity_0(x, sp, sb) {
            Ok(l) => l,
            Err(e) => {
                return Err(e);
            },
        };
        let l1 = match get_liquidity_1(y, sa, sp) {
            Ok(l) => l,
            Err(e) => {
                return Err(e);
            },
        };
        if l0 < l1 {
            Ok(l0)
        } else {
            Ok(l1)
        }
    } else {
        get_liquidity_1(y, sa, sb)
    }
}

/// Spec mirror of [`get_liquidity`].
pub open spec fn spec_get_liquidity(x: int, y: int, sp: int, sa: int, sb: int) -> Result<
    u64,
    EngineError,
> {
    if sp <= sa {
        spec_liq0(x, sa, sb)
    } else if sp < sb {
        match spec_liq0(x, sp, sb) {
            Err(e) => Err(e),
            Ok(l0) => match spec_liq1(y, sa, sp) {
                Err(e) => Err(e),
                Ok(l1) => Ok(if l0 < l1 {
                    l0
                } else {
                    l1
                }),
            },
        }
    } else {
        spec_liq1(y, sa, sb)
    }
}

/// The grid rung bracketing a square-root price; meaningful whenever some
/// rung brackets it, and then unique by `lemma_bracket_unique`.
pub open spec fn spec_rung_of(p: int) -> int {
    choose|u: int| #[trigger] tick_brackets(u, p)
}

/// Snapping a price to the grid: take its square root, then the rung
/// bracketing that square root.  Returns the rung index and its grid value.
pub open spec fn spec_snap(price: int) -> Result<(int, int), EngineError> {
    if price > PRICE_INPUT_MAX {
        Err(EngineError::PriceOutOfRange)
    } else {
        let s = spec_isqrt(price * (PRICE_SCALE as int));
        if s < GRID_BASE || s >= spec_grid(N_TICKS as int) {
            Err(EngineError::PriceOutOfRange)
        } else {
            Ok((spec_rung_of(s), spec_grid(spec_rung_of(s))))
        }
    }
}

/// Snap a price to the tick grid, executable.
pub(crate) fn snap(price: u128) -> (r: Result<(usize, u128), EngineError>)
    ensures
        match r {
            Ok((u, g)) => {
                &&& spec_snap(price as int) == Ok::<(int, int), EngineError>((u as int, g as int))
                &&& 0 <= u < N_TICKS
                &&& g == spec_grid(u as int)
            },
            Err(e) => spec_snap(price as int) == Err::<(int, int), EngineError>(e),
        },
{
    if price > PRICE_INPUT_MAX {
        return Err(EngineError::PriceOutOfRange);
    }
    let s = isqrt(price * PRICE_SCALE);
    match locate(s) {
        Ok((u, g, g1)) => {
            proof {
                assert(tick_brackets(u as int, s as int));
                assert(exists|v: int| #[trigger] tick_brackets(v, s as int));
                lemma_bracket_unique(spec_rung_of(s as int), u as int, s as int);
            }
            Ok((u, g))
        },
        Err(e) => Err(e),
    }
}

/// A liquidity provider's committed range: bounds snapped to the tick
/// grid, the virtual liquidity across the range, and the amounts of the
/// two tokens currently locked by it.
#[derive(Clone, Debug)]
pub struct Position {
    /// Identifier of the provider.
    pub owner_id: String,
    /// Virtual liquidity across the range, scaled by `AMOUNT_SCALE`.
    pub liquidity: u64,
    /// Token0 currently locked, scaled by `AMOUNT_SCALE`.
    pub token0_locked: u64,
    /// Token1 currently locked, scaled by `AMOUNT_SCALE`.
    pub token1_locked: u64,
    /// Tick of the lower bound.
    pub tick_lower_bound_price: i32,
    /// Tick of the upper bound.
    pub tick_upper_bound_price: i32,
    /// Square-root price at the lower bound, scaled by `PRICE_SCALE`.
    pub sqrt_lower_bound_price: u128,
    /// Square-root price at the upper bound, scaled by `PRICE_SCALE`.
    pub sqrt_upper_bound_price: u128,
    /// Whether the range contained the pool price at the last refresh.
    pub is_active: bool,
    /// Timestamp of the last refresh.
    pub last_update: u64,
    /// Wall-time spent active, accumulated by refreshes.
    pub rewards_for_time: u64,
    /// Accumulated fee attributions in token0, managed by the host.
    pub fees_earned_token0: u128,
    /// Accumulated fee attributions in token1, managed by the host.
    pub fees_earned_token1: u128,
}

impl Position {
    /// The bounds are grid values in range and properly ordered.
    pub open spec fn wf(&self) -> bool {
        &&& GRID_BASE <= self.sqrt_lower_bound_price
        &&& self.sqrt_lower_bound_price < self.sqrt_upper_bound_price
        &&& self.sqrt_upper_bound_price <= GRID_LIMIT
    }

    /// The range contains the square-root price, both ends included.
    pub open spec fn spec_is_active(&self, sqrt_price: int) -> bool {
        self.sqrt_lower_bound_price <= sqrt_price <= self.sqrt_upper_bound_price
    }

    /// Whether the range contains `sqrt_price`, both ends included.
    pub fn is_active(&self, sqrt_price: u128) -> (r: bool)
        ensures
            r == self.spec_is_active(sqrt_price as int),
    {
        self.sqrt_lower_bound_price <= sqrt_price && self.sqrt_upper_bound_price >= sqrt_price
    }

    /// Open a position from a deposit of exactly one of the two tokens.
    ///
    /// The bounds are plain prices (not square roots), snapped to the tick
    /// grid; `sqrt_price` is the pool's current square-root price.  The
    /// deposited amount is a whole-token count.
    pub fn new(
        owner_id: String,
        token0_liquidity: Option<u64>,
        token1_liquidity: Option<u64>,
        lower_bound_price: u128,
        upper_bound_price: u128,
        sqrt_price: u128,
    ) -> (r: Result<Position, EngineError>)
        ensures
            r == spec_position_new(
                owner_id,
                token0_liquidity,
                token1_liquidity,
                lower_bound_price as int,
                upper_bound_price as int,
                sqrt_price as int,
            ),
            r is Ok ==> r->Ok_0.wf(),
    {
        if token0_liquidity.is_some() == token1_liquidity.is_some() {
            return Err(EngineError::IncorrectToken);
        }
        if lower_bound_price >= upper_bound_price {
            return Err(EngineError::InvalidRange);
        }
        let (ul, pa) = match snap(lower_bound_price) {
            Ok(v) => v,
            Err(e) => {
                return Err(e);
            },
        };
        let (uu, pb) = match snap(upper_bound_price) {
            Ok(v) => v,
            Err(e) => {
                return Err(e);
            },
        };
        if ul == uu {
            return Err(EngineError::InvalidRange);
        }
        proof {
            lemma_grid_bounds_pair(ul as int, uu as int);
        }
        let tick_lower_bound_price: i32 = (ul as i32) + TICK_FLOOR;
        let tick_upper_bound_price: i32 = (uu as i32) + TICK_FLOOR;
        if let Some(amt) = token0_liquidity {
            if amt == 0 {
                return Err(EngineError::NonPositiveAmount);
            }
            if amt > AMOUNT_INPUT_MAX {
                return Err(EngineError::Overflow);
            }
            let xs: u64 = amt * AMOUNT_SCALE;
            if sqrt_price > pb {
                return Err(EngineError::WrongSide);
            }
            let lres = if pa < sqrt_price && sqrt_price < pb {
                get_liquidity_0(xs, sqrt_price, pb)
            } else {
                get_liquidity_0(xs, pa, pb)
            };
            let liquidity = match lres {
                Ok(l) => l,
                Err(e) => {
                    return Err(e);
                },
            };
            if liquidity == 0 {
                return Err(EngineError::NonPositiveAmount);
            }
            let ys = match calculate_y(liquidity, sqrt_price, pa, pb) {
                Ok(y) => y,
                Err(e) => {
                    return Err(e);
                },
            };
            Ok(
                Position {
                    owner_id,
                    liquidity,
                    token0_locked: xs,
                    token1_locked: ys,
                    tick_lower_bound_price,
                    tick_upper_bound_price,
                    sqrt_lower_bound_price: pa,
                    sqrt_upper_bound_price: pb,
                    is_active: pa <= sqrt_price && sqrt_price <= pb,
                    last_update: 0,
                    rewards_for_time: 0,
                    fees_earned_token0: 0,
                    fees_earned_token1: 0,
                },
            )
        } else {
            let amt = match token1_liquidity {
                Some(a) => a,
                None => {
                    return Err(EngineError::IncorrectToken);
                },
            };
            if amt == 0 {
                return Err(EngineError::NonPositiveAmount);
            }
            if amt > AMOUNT_INPUT_MAX {
                return Err(EngineError::Overflow);
            }
            let ys: u64 = amt * AMOUNT_SCALE;
            if sqrt_price < pa {
                return Err(EngineError::WrongSide);
            }
            let lres = if pa <= sqrt_price && sqrt_price <= pb {
                get_liquidity_1(ys, pa, sqrt_price)
            } else {
                get_liquidity_1(ys, pa, pb)
            };
            let liquidity = match lres {
                Ok(l) => l,
                Err(e) => {
                    return Err(e);
                },
            };
            if liquidity == 0 {
                return Err(EngineError::NonPositiveAmount);
            }
            let xs = match calculate_x(liquidity, sqrt_price, pa, pb) {
                Ok(x) => x,
                Err(e) => {
                    return Err(e);
                },
            };
            Ok(
                Position {
                    owner_id,
                    liquidity,
                    token0_locked: xs,
                    token1_locked: ys,
                    tick_lower_bound_price,
                    tick_upper_bound_price,
                    sqrt_lower_bound_price: pa,
                    sqrt_upper_bound_price: pb,
                    is_active: pa <= sqrt_price && sqrt_price <= pb,
                    last_update: 0,
                    rewards_for_time: 0,
                    fees_earned_token0: 0,
                    fees_earned_token1: 0,
                },
            )
        }
    }
}

impl Position {
    /// Recompute both locked amounts at the current pool price; account
    /// the wall-time spent active since the last refresh; re-derive the
    /// active flag.  On an error nothing is changed.
    pub fn refresh(&mut self, sqrt_price: u128, current_timestamp: u64) -> (r: Result<
        (),
        EngineError,
    >)
        requires
            old(self).last_update <= current_timestamp,
        ensures
            match spec_refresh(*old(self), sqrt_price as int, current_timestamp as int) {
                Ok(p2) => r == Ok::<(), EngineError>(()) && *final(self) == p2,
                Err(e) => r == Err::<(), EngineError>(e) && *final(self) == *old(self),
            },
    {
        let xs = match calculate_x(
            self.liquidity,
            sqrt_price,
            self.sqrt_lower_bound_price,
            self.sqrt_upper_bound_price,
        ) {
            Ok(x) => x,
            Err(e) => {
                return Err(e);
            },
        };
        let ys = match calculate_y(
            self.liquidity,
            sqrt_price,
            self.sqrt_lower_bound_price,
            self.sqrt_upper_bound_price,
        ) {
            Ok(y) => y,
            Err(e) => {
                return Err(e);
            },
        };
        let gained: u64 = if self.is_active {
            current_timestamp - self.last_update
        } else {
            0
        };
        if gained > u64::MAX - self.rewards_for_time {
            return Err(EngineError::Overflow);
        }
        self.token0_locked = xs;
        self.token1_locked = ys;
        self.rewards_for_time = self.rewards_for_time + gained;
        self.is_active = self.sqrt_lower_bound_price <= sqrt_price && sqrt_price
            <= self.sqrt_upper_bound_price;
        self.last_update = current_timestamp;
        Ok(())
    }

    /// Deposit more of exactly one token into the range: adjust that
    /// token's locked amount, re-derive the liquidity from it, then
    /// recompute the other locked amount.  On an error nothing is changed.
    pub fn add_liquidity(
        &mut self,
        token0_liquidity: Option<u64>,
        token1_liquidity: Option<u64>,
        sqrt_price: u128,
    ) -> (r: Result<(), EngineError>)
        ensures
            match spec_add_liquidity(
                *old(self),
                token0_liquidity,
                token1_liquidity,
                sqrt_price as int,
            ) {
                Ok(p2) => r == Ok::<(), EngineError>(()) && *final(self) == p2,
                Err(e) => r == Err::<(), EngineError>(e) && *final(self) == *old(self),
            },
    {
        if token0_liquidity.is_some() == token1_liquidity.is_some() {
            return Err(EngineError::IncorrectToken);
        }
        if let Some(amt) = token0_liquidity {
            if sqrt_price > self.sqrt_upper_bound_price {
                return Err(EngineError::WrongSide);
            }
            if amt > AMOUNT_INPUT_MAX {
                return Err(EngineError::Overflow);
            }
            let xs: u64 = amt * AMOUNT_SCALE;
            if xs > u64::MAX - self.token0_locked {
                return Err(EngineError::Overflow);
            }
            let new_x: u64 = self.token0_locked + xs;
            let lres = if self.sqrt_lower_bound_price < sqrt_price && sqrt_price
                < self.sqrt_upper_bound_price {
                get_liquidity_0(new_x, sqrt_price, self.sqrt_upper_bound_price)
            } else {
                get_liquidity_0(new_x, self.sqrt_lower_bound_price, self.sqrt_upper_bound_price)
            };
            let liquidity = match lres {
                Ok(l) => l,
                Err(e) => {
                    return Err(e);
                },
            };
            let ys = match calculate_y(
                liquidity,
                sqrt_price,
                self.sqrt_lower_bound_price,
                self.sqrt_upper_bound_price,
            ) {
                Ok(y) => y,
                Err(e) => {
                    return Err(e);
                },
            };
            self.token0_locked = new_x;
            self.liquidity = liquidity;
            self.token1_locked = ys;
            Ok(())
        } else {
            let amt = match token1_liquidity {
                Some(a) => a,
                None => {
                    return Err(EngineError::IncorrectToken);
                },
            };
            if sqrt_price < self.sqrt_lower_bound_price {
                return Err(EngineError::WrongSide);
            }
            if amt > AMOUNT_INPUT_MAX {
                return Err(EngineError::Overflow);
            }
            let ys: u64 = amt * AMOUNT_SCALE;
            if ys > u64::MAX - self.token1_locked {
                return Err(EngineError::Overflow);
            }
            let new_y: u64 = self.token1_locked + ys;
            let lres = if self.sqrt_lower_bound_price <= sqrt_price && sqrt_price
                <= self.sqrt_upper_bound_price {
                get_liquidity_1(new_y, self.sqrt_lower_bound_price, sqrt_price)
            } else {
                get_liquidity_1(new_y, self.sqrt_lower_bound_price, self.sqrt_upper_bound_price)
            };
            let liquidity = match lres {
                Ok(l) => l,
                Err(e) => {
                    return Err(e);
                },
            };
            let xs = match calculate_x(
                liquidity,
                sqrt_price,
                self.sqrt_lower_bound_price,
                self.sqrt_upper_bound_price,
            ) {
                Ok(x) => x,
                Err(e) => {
                    return Err(e);
                },
            };
            self.token1_locked = new_y;
            self.liquidity = liquidity;
            self.token0_locked = xs;
            Ok(())
        }
    }

    /// Withdraw some of exactly one token from the range; the remaining
    /// locked amount must stay strictly positive.  On an error nothing is
    /// changed.
    pub fn remove_liquidity(
        &mut self,
        token0_liquidity: Option<u64>,
        token1_liquidity: Option<u64>,
        sqrt_price: u128,
    ) -> (r: Result<(), EngineError>)
        ensures
            match spec_remove_liquidity(
                *old(self),
                token0_liquidity,
                token1_liquidity,
                sqrt_price as int,
            ) {
                Ok(p2) => r == Ok::<(), EngineError>(()) && *final(self) == p2,
                Err(e) => r == Err::<(), EngineError>(e) && *final(self) == *old(self),
            },
    {
        if token0_liquidity.is_some() == token1_liquidity.is_some() {
            return Err(EngineError::IncorrectToken);
        }
        if let Some(amt) = token0_liquidity {
            if amt > AMOUNT_INPUT_MAX {
                return Err(EngineError::Overflow);
            }
            let xs: u64 = amt * AMOUNT_SCALE;
            if xs >= self.token0_locked {
                return Err(EngineError::NonPositiveAmount);
            }
            if sqrt_price > self.sqrt_upper_bound_price {
                return Err(EngineError::WrongSide);
            }
            let new_x: u64 = self.token0_locked - xs;
            let lres = if self.sqrt_lower_bound_price < sqrt_price && sqrt_price
                < self.sqrt_upper_bound_price {
                get_liquidity_0(new_x, sqrt_price, self.sqrt_upper_bound_price)
            } else {
                get_liquidity_0(new_x, self.sqrt_lower_bound_price, self.sqrt_upper_bound_price)
            };
            let liquidity = match lres {
                Ok(l) => l,
                Err(e) => {
                    return Err(e);
                },
            };
            let ys = match calculate_y(
                liquidity,
                sqrt_price,
                self.sqrt_lower_bound_price,
                self.sqrt_upper_bound_price,
            ) {
                Ok(y) => y,
                Err(e) => {
                    return Err(e);
                },
            };
            self.token0_locked = new_x;
            self.liquidity = liquidity;
            self.token1_locked = ys;
            Ok(())
        } else {
            let amt = match token1_liquidity {
                Some(a) => a,
                None => {
                    return Err(EngineError::IncorrectToken);
                },
            };
            if amt > AMOUNT_INPUT_MAX {
                return Err(EngineError::Overflow);
            }
            let ys: u64 = amt * AMOUNT_SCALE;
            if ys >= self.token1_locked {
                return Err(EngineError::NonPositiveAmount);
            }
            if sqrt_price < self.sqrt_lower_bound_price {
                return Err(EngineError::WrongSide);
            }
            let new_y: u64 = self.token1_locked - ys;
            let lres = if self.sqrt_lower_bound_price <= sqrt_price && sqrt_price
                <= self.sqrt_upper_bound_price {
                get_liquidity_1(new_y, self.sqrt_lower_bound_price, sqrt_price)
            } else {
                get_liquidity_1(new_y, self.sqrt_lower_bound_price, self.sqrt_upper_bound_price)
            };
            let liquidity = match lres {
                Ok(l) => l,
                Err(e) => {
                    return Err(e);
                },
            };
            let xs = match calculate_x(
                liquidity,
                sqrt_price,
                self.sqrt_lower_bound_price,
                self.sqrt_upper_bound_price,
            ) {
                Ok(x) => x,
                Err(e) => {
                    return Err(e);
                },
            };
            self.token1_locked = new_y;
            self.liquidity = liquidity;
            self.token0_locked = xs;
            Ok(())
        }
    }
}

impl Default for Position {
    /// The empty position: no owner, no range, nothing locked.
    fn default() -> (d: Position)
        ensures
            d.owner_id@ == Seq::<char>::empty(),
            d.liquidity == 0,
            d.token0_locked == 0,
            d.token1_locked == 0,
            d.tick_lower_bound_price == 0,
            d.tick_upper_bound_price == 0,
            d.sqrt_lower_bound_price == 0,
            d.sqrt_upper_bound_price == 0,
            !d.is_active,
            d.last_update == 0,
            d.rewards_for_time == 0,
            d.fees_earned_token0 == 0,
            d.fees_earned_token1 == 0,
    {
        Position {
            owner_id: String::new(),
            liquidity: 0,
            token0_locked: 0,
            token1_locked: 0,
            tick_lower_bound_price: 0,
            tick_upper_bound_price: 0,
            sqrt_lower_bound_price: 0,
            sqrt_upper_bound_price: 0,
            is_active: false,
            last_update: 0,
            rewards_for_time: 0,
            fees_earned_token0: 0,
            fees_earned_token1: 0,
        }
    }
}

/// Spec mirror of [`Position::refresh`].
pub open spec fn spec_refresh(p: Position, sp: int, now: int) -> Result<Position, EngineError> {
    match spec_calc_x(
        p.liquidity as int,
        sp,
        p.sqrt_lower_bound_price as int,
        p.sqrt_upper_bound_price as int,
    ) {
        Err(e) => Err(e),
        Ok(xs) => match spec_calc_y(
            p.liquidity as int,
            sp,
            p.sqrt_lower_bound_price as int,
            p.sqrt_upper_bound_price as int,
        ) {
            Err(e) => Err(e),
            Ok(ys) => {
                let gained = if p.is_active {
                    now - p.last_update
                } else {
                    0
                };
                if gained > u64::MAX - p.rewards_for_time {
                    Err(EngineError::Overflow)
                } else {
                    Ok(
                        (Position {
                            token0_locked: xs,
                            token1_locked: ys,
                            rewards_for_time: (p.rewards_for_time + gained) as u64,
                            is_active: p.sqrt_lower_bound_price <= sp <= p.sqrt_upper_bound_price,
                            last_update: now as u64,
                            ..p
                        }),
                    )
                }
            },
        },
    }
}


/// After a successful refresh, both locked amounts are exactly the
/// closed-form amounts implied by the position's liquidity and range at
/// the refreshed price, and the active flag is exactly whether the range
/// contains that price.
pub proof fn lemma_refresh_locks(p: Position, sp: int, now: int)
    requires
        spec_refresh(p, sp, now) is Ok,
    ensures
        spec_calc_x(
            p.liquidity as int,
            sp,
            p.sqrt_lower_bound_price as int,
            p.sqrt_upper_bound_price as int,
        ) == Ok::<u64, EngineError>(spec_refresh(p, sp, now)->Ok_0.token0_locked),
        spec_calc_y(
            p.liquidity as int,
            sp,
            p.sqrt_lower_bound_price as int,
            p.sqrt_upper_bound_price as int,
        ) == Ok::<u64, EngineError>(spec_refresh(p, sp, now)->Ok_0.token1_locked),
        spec_refresh(p, sp, now)->Ok_0.is_active == (p.sqrt_lower_bound_price <= sp
            <= p.sqrt_upper_bound_price),
{
}

/// Spec mirror of [`Position::add_liquidity`].
pub open spec fn spec_add_liquidity(
    p: Position,
    token0_liquidity: Option<u64>,
    token1_liquidity: Option<u64>,
    sp: int,
) -> Result<Position, EngineError> {
    if (token0_liquidity is Some) == (token1_liquidity is Some) {
        Err(EngineError::IncorrectToken)
    } else if token0_liquidity is Some {
        let amt = token0_liquidity->0;
        if sp > p.sqrt_upper_bound_price {
            Err(EngineError::WrongSide)
        } else if amt > AMOUNT_INPUT_MAX {
            Err(EngineError::Overflow)
        } else if amt * AMOUNT_SCALE > u64::MAX - p.token0_locked {
            Err(EngineError::Overflow)
        } else {
            let new_x = p.token0_locked + amt * AMOUNT_SCALE;
            let lres = if p.sqrt_lower_bound_price < sp < p.sqrt_upper_bound_price {
                spec_liq0(new_x, sp, p.sqrt_upper_bound_price as int)
            } else {
                spec_liq0(new_x, p.sqrt_lower_bound_price as int, p.sqrt_upper_bound_price as int)
            };
            match lres {
                Err(e) => Err(e),
                Ok(liquidity) => match spec_calc_y(
                    liquidity as int,
                    sp,
                    p.sqrt_lower_bound_price as int,
                    p.sqrt_upper_bound_price as int,
                ) {
                    Err(e) => Err(e),
                    Ok(ys) => Ok(
                        (Position {
                            token0_locked: new_x as u64,
                            liquidity,
                            token1_locked: ys,
                            ..p
                        }),
                    ),
                },
            }
        }
    } else {
        let amt = token1_liquidity->0;
        if sp < p.sqrt_lower_bound_price {
            Err(EngineError::WrongSide)
        } else if amt > AMOUNT_INPUT_MAX {
            Err(EngineError::Overflow)
        } else if amt * AMOUNT_SCALE > u64::MAX - p.token1_locked {
            Err(EngineError::Overflow)
        } else {
            let new_y = p.token1_locked + amt * AMOUNT_SCALE;
            let lres = if p.sqrt_lower_bound_price <= sp <= p.sqrt_upper_bound_price {
                spec_liq1(new_y, p.sqrt_lower_bound_price as int, sp)
            } else {
                spec_liq1(new_y, p.sqrt_lower_bound_price as int, p.sqrt_upper_bound_price as int)
            };
            match lres {
                Err(e) => Err(e),
                Ok(liquidity) => match spec_calc_x(
                    liquidity as int,
                    sp,
                    p.sqrt_lower_bound_price as int,
                    p.sqrt_upper_bound_price as int,
                ) {
                    Err(e) => Err(e),
                    Ok(xs) => Ok(
                        (Position {
                            token1_locked: new_y as u64,
                            liquidity,
                            token0_locked: xs,
                            ..p
                        }),
                    ),
                },
            }
        }
    }
}

/// Spec mirror of [`Position::remove_liquidity`].
pub open spec fn spec_remove_liquidity(
    p: Position,
    token0_liquidity: Option<u64>,
    token1_liquidity: Option<u64>,
    sp: int,
) -> Result<Position, EngineError> {
    if (token0_liquidity is Some) == (token1_liquidity is Some) {
        Err(EngineError::IncorrectToken)
    } else if token0_liquidity is Some {
        let amt = token0_liquidity->0;
        if amt > AMOUNT_INPUT_MAX {
            Err(EngineError::Overflow)
        } else if amt * AMOUNT_SCALE >= p.token0_locked {
            Err(EngineError::NonPositiveAmount)
        } else if sp > p.sqrt_upper_bound_price {
            Err(EngineError::WrongSide)
        } else {
            let new_x = p.token0_locked - amt * AMOUNT_SCALE;
            let lres = if p.sqrt_lower_bound_price < sp < p.sqrt_upper_bound_price {
                spec_liq0(new_x, sp, p.sqrt_upper_bound_price as int)
            } else {
                spec_liq0(new_x, p.sqrt_lower_bound_price as int, p.sqrt_upper_bound_price as int)
            };
            match lres {
                Err(e) => Err(e),
                Ok(liquidity) => match spec_calc_y(
                    liquidity as int,
                    sp,
                    p.sqrt_lower_bound_price as int,
                    p.sqrt_upper_bound_price as int,
                ) {
                    Err(e) => Err(e),
                    Ok(ys) => Ok(
                        (Position {
                            token0_locked: new_x as u64,
                            liquidity,
                            token1_locked: ys,
                            ..p
                        }),
                    ),
                },
            }
        }
    } else {
        let amt = token1_liquidity->0;
        if amt > AMOUNT_INPUT_MAX {
            Err(EngineError::Overflow)
        } else if amt * AMOUNT_SCALE >= p.token1_locked {
            Err(EngineError::NonPositiveAmount)
        } else if sp < p.sqrt_lower_bound_price {
            Err(EngineError::WrongSide)
        } else {
            let new_y = p.token1_locked - amt * AMOUNT_SCALE;
            let lres = if p.sqrt_lower_bound_price <= sp <= p.sqrt_upper_bound_price {
                spec_liq1(new_y, p.sqrt_lower_bound_price as int, sp)
            } else {
                spec_liq1(new_y, p.sqrt_lower_bound_price as int, p.sqrt_upper_bound_price as int)
            };
            match lres {
                Err(e) => Err(e),
                Ok(liquidity) => match spec_calc_x(
                    liquidity as int,
                    sp,
                    p.sqrt_lower_bound_price as int,
                    p.sqrt_upper_bound_price as int,
                ) {
                    Err(e) => Err(e),
                    Ok(xs) => Ok(
                        (Position {
                            token1_locked: new_y as u64,
                            liquidity,
                            token0_locked: xs,
                            ..p
                        }),
                    ),
                },
            }
        }
    }
}

/// Both rungs lie between the grid anchor and its limit.
proof fn lemma_grid_bounds_pair(u1: int, u2: int)
    ensures
        GRID_BASE <= spec_grid(u1) <= GRID_LIMIT,
        GRID_BASE <= spec_grid(u2) <= GRID_LIMIT,
{
    crate::tick::lemma_grid_bounds(u1);
    crate::tick::lemma_grid_bounds(u2);
}

/// Spec mirror of [`Position::new`].
pub open spec fn spec_position_new(
    owner_id: String,
    token0_liquidity: Option<u64>,
    token1_liquidity: Option<u64>,
    lower: int,
    upper: int,
    sp: int,
) -> Result<Position, EngineError> {
    if (token0_liquidity is Some) == (token1_liquidity is Some) {
        Err(EngineError::IncorrectToken)
    } else if lower >= upper {
        Err(EngineError::InvalidRange)
    } else {
        match spec_snap(lower) {
            Err(e) => Err(e),
            Ok((ul, pa)) => match spec_snap(upper) {
                Err(e) => Err(e),
                Ok((uu, pb)) => {
                    if ul == uu {
                        Err(EngineError::InvalidRange)
                    } else if token0_liquidity is Some {
                        let amt = token0_liquidity->0;
                        if amt == 0 {
                            Err(EngineError::NonPositiveAmount)
                        } else if amt > AMOUNT_INPUT_MAX {
                            Err(EngineError::Overflow)
                        } else {
                            let xs = amt * AMOUNT_SCALE;
                            if sp > pb {
                                Err(EngineError::WrongSide)
                            } else {
                                let lres = if pa < sp && sp < pb {
                                    spec_liq0(xs as int, sp, pb)
                                } else {
                                    spec_liq0(xs as int, pa, pb)
                                };
                                match lres {
                                    Err(e) => Err(e),
                                    Ok(liquidity) => {
                                        if liquidity == 0 {
                                            Err(EngineError::NonPositiveAmount)
                                        } else {
                                            match spec_calc_y(liquidity as int, sp, pa, pb) {
                                                Err(e) => Err(e),
                                                Ok(ys) => Ok(
                                                    (Position {
                                                        owner_id,
                                                        liquidity,
                                                        token0_locked: xs as u64,
                                                        token1_locked: ys,
                                                        tick_lower_bound_price: (ul - 50_000) as i32,
                                                        tick_upper_bound_price: (uu - 50_000) as i32,
                                                        sqrt_lower_bound_price: pa as u128,
                                                        sqrt_upper_bound_price: pb as u128,
                                                        is_active: pa <= sp <= pb,
                                                        last_update: 0,
                                                        rewards_for_time: 0,
                                                        fees_earned_token0: 0,
                                                        fees_earned_token1: 0,
                                                    }),
                                                ),
                                            }
                                        }
                                    },
                                }
                            }
                        }
                    } else {
                        let amt = token1_liquidity->0;
                        if amt == 0 {
                            Err(EngineError::NonPositiveAmount)
                        } else if amt > AMOUNT_INPUT_MAX {
                            Err(EngineError::Overflow)
                        } else {
                            let ys = amt * AMOUNT_SCALE;
                            if sp < pa {
                                Err(EngineError::WrongSide)
                            } else {
                                let lres = if pa <= sp && sp <= pb {
                                    spec_liq1(ys as int, pa, sp)
                                } else {
                                    spec_liq1(ys as int, pa, pb)
                                };
                                match lres {
                                    Err(e) => Err(e),
                                    Ok(liquidity) => {
                                        if liquidity == 0 {
                                            Err(EngineError::NonPositiveAmount)
                                        } else {
                                            match spec_calc_x(liquidity as int, sp, pa, pb) {
                                                Err(e) => Err(e),
                                                Ok(xs) => Ok(
                                                    (Position {
                                                        owner_id,
                                                        liquidity,
                                                        token0_locked: xs,
                                                        token1_locked: ys as u64,
                                                        tick_lower_bound_price: (ul - 50_000) as i32,
                                                        tick_upper_bound_price: (uu - 50_000) as i32,
                                                        sqrt_lower_bound_price: pa as u128,
                                                        sqrt_upper_bound_price: pb as u128,
                                                        is_active: pa <= sp <= pb,
                                                        last_update: 0,
                                                        rewards_for_time: 0,
                                                        fees_earned_token0: 0,
                                                        fees_earned_token1: 0,
                                                    }),
                                                ),
                                            }
                                        }
                                    },
                                }
                            }
                        }
                    }
                },
            },
        }
    }
}

} // verus!
