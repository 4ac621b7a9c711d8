//! The pool and its swap engine: the current square-root price and tick,
//! the ordered collection of positions, the cached aggregate liquidity of
//! the positions active at the current price, and the tick-walking dry-run
//! quote with its commit step.

use vstd::prelude::*;

use crate::errors::EngineError;
use crate::fees::{spec_ledger_add, spec_ledger_total, FeeLedger};
use crate::fixed::{
    checked_mul_div, isqrt, lemma_mul_div_split, mul_div, sat_mul, spec_checked_mul_div,
    spec_sat_mul,
};
use crate::position::{spec_refresh, Position, PRICE_INPUT_MAX, RECIP_SCALE};
use crate::tick::{
    lemma_grid_bounds, lemma_grid_mono, locate, spec_grid, tick_brackets, GRID_BASE, GRID_LIMIT,
    N_TICKS, TICK_FLOOR,
};
use crate::AMOUNT_SCALE;
use crate::PRICE_SCALE;

verus! {

/// The two quote modes of a swap.
#[derive(Clone, Copy, PartialEq, Eq, Structural)]
pub enum SwapDirection {
    /// The token argument is the input; the quote returns the output
    /// produced by the given input amount.
    Return,
    /// The token argument is the output; the quote returns the input
    /// needed for the given output amount.
    Expense,
}

/// The outcome of a dry-run swap: the paired amount, the tick liquidity
/// and square-root price where the walk stopped, and the fee attribution.
#[derive(Clone, Debug)]
pub struct SwapResult {
    /// The unconstrained side of the trade, scaled by `AMOUNT_SCALE`.
    pub amount: u128,
    /// Aggregate liquidity of the positions active at the final price.
    pub new_liquidity: u64,
    /// Square-root price where the walk stopped, scaled by `PRICE_SCALE`.
    pub new_sqrt_price: u128,
    /// Fee value attributed to each position owner.
    pub collected_fees: FeeLedger,
}

/// A two-asset pool: the asset pair, the price cursor, the ordered
/// positions, and the fee parameters in basis points.
pub struct Pool {
    /// Identifier of the first asset.
    pub token0: String,
    /// Identifier of the second asset.
    pub token1: String,
    /// Cached aggregate liquidity of the positions active at `sqrt_price`.
    pub liquidity: u64,
    /// Current square-root price, scaled by `PRICE_SCALE`.
    pub sqrt_price: u128,
    /// Current tick: the grid rung bracketing `sqrt_price`.
    pub tick: i32,
    /// The positions, in insertion order.
    pub positions: Vec<Position>,
    /// Protocol fee in basis points; recorded, not charged by the engine.
    pub protocol_fee: u16,
    /// Providers' reward share of traded volume, in basis points.
    pub rewards: u16,
}

/// Aggregate liquidity of the positions whose range contains `p`.
pub open spec fn spec_sum_active(s: Seq<Position>, p: int) -> int
    decreases s.len(),
{
    if s.len() == 0 {
        0
    } else {
        (if s[0].spec_is_active(p) {
            s[0].liquidity as int
        } else {
            0
        }) + spec_sum_active(s.skip(1), p)
    }
}

/// Aggregate liquidity of all positions.
pub open spec fn spec_sum_all(s: Seq<Position>) -> int
    decreases s.len(),
{
    if s.len() == 0 {
        0
    } else {
        s[0].liquidity + spec_sum_all(s.skip(1))
    }
}

/// Some position has a bound strictly beyond `p` in the direction of
/// motion: strictly below when moving down, strictly above when moving up.
pub open spec fn spec_avail(s: Seq<Position>, p: int, down: bool) -> bool {
    exists|i: int|
        0 <= i < s.len() && (if down {
            s[i].sqrt_upper_bound_price < p
        } else {
            s[i].sqrt_lower_bound_price > p
        })
}

/// Both sums are nonnegative, and the active sum never exceeds the total.
pub proof fn lemma_sum_bounds(s: Seq<Position>, p: int)
    ensures
        0 <= spec_sum_active(s, p) <= spec_sum_all(s),
    decreases s.len(),
{
    if s.len() > 0 {
        lemma_sum_bounds(s.skip(1), p);
    }
}

/// Peeling one position off the front of either sum.
proof fn lemma_sum_take_step(s: Seq<Position>, p: int, i: int)
    requires
        0 <= i < s.len(),
    ensures
        spec_sum_active(s.take(i + 1), p) == spec_sum_active(s.take(i), p) + (
        if s[i].spec_is_active(p) {
            s[i].liquidity as int
        } else {
            0
        }),
        spec_sum_all(s.take(i + 1)) == spec_sum_all(s.take(i)) + s[i].liquidity,
    decreases i,
{
    if i == 0 {
        assert(s.take(1).skip(1) =~= Seq::<Position>::empty());
        assert(s.take(0) =~= Seq::<Position>::empty());
        assert(s.take(1)[0] == s[0]);
    } else {
        lemma_sum_take_step(s.skip(1), p, i - 1);
        assert(s.take(i + 1).skip(1) =~= s.skip(1).take(i));
        assert(s.take(i).skip(1) =~= s.skip(1).take(i - 1));
        assert(s.take(i + 1)[0] == s[0]);
        assert(s.take(i)[0] == s[0]);
        assert(s.skip(1)[i - 1] == s[i]);
    }
}

/// A prefix of the total sum never exceeds the whole.
proof fn lemma_sum_all_take_le(s: Seq<Position>, i: int)
    requires
        0 <= i <= s.len(),
    ensures
        spec_sum_all(s.take(i)) <= spec_sum_all(s),
    decreases s.len() - i,
{
    if i == s.len() {
        assert(s.take(i) =~= s);
    } else {
        lemma_sum_take_step(s, 0, i);
        lemma_sum_all_take_le(s, i + 1);
    }
}

/// An active position's liquidity is part of the active sum.
pub proof fn lemma_active_le_sum(s: Seq<Position>, p: int, i: int)
    requires
        0 <= i < s.len(),
        s[i].spec_is_active(p),
    ensures
        s[i].liquidity <= spec_sum_active(s, p),
    decreases i,
{
    lemma_sum_bounds(s.skip(1), p);
    if i > 0 {
        lemma_active_le_sum(s.skip(1), p, i - 1);
    }
}

/// The sums after appending a position.
pub proof fn lemma_sum_push(s: Seq<Position>, p: int, x: Position)
    ensures
        spec_sum_active(s.push(x), p) == spec_sum_active(s, p) + (if x.spec_is_active(p) {
            x.liquidity as int
        } else {
            0
        }),
        spec_sum_all(s.push(x)) == spec_sum_all(s) + x.liquidity,
    decreases s.len(),
{
    if s.len() == 0 {
        assert(s.push(x).skip(1) =~= Seq::<Position>::empty());
        assert(s.push(x)[0] == x);
        assert(s.push(x).len() == 1);
        assert(spec_sum_active(s.push(x), p) == (if x.spec_is_active(p) {
            x.liquidity as int
        } else {
            0
        }) + spec_sum_active(s.push(x).skip(1), p));
        assert(spec_sum_active(Seq::<Position>::empty(), p) == 0);
        assert(spec_sum_active(s, p) == 0);
        assert(spec_sum_all(Seq::<Position>::empty()) == 0);
        assert(spec_sum_all(s) == 0);
    } else {
        lemma_sum_push(s.skip(1), p, x);
        assert(s.push(x).skip(1) =~= s.skip(1).push(x));
        assert(s.push(x)[0] == s[0]);
    }
}

/// The sums after removing the position at `i`.
pub proof fn lemma_sum_remove(s: Seq<Position>, p: int, i: int)
    requires
        0 <= i < s.len(),
    ensures
        spec_sum_active(s.remove(i), p) == spec_sum_active(s, p) - (if s[i].spec_is_active(p) {
            s[i].liquidity as int
        } else {
            0
        }),
        spec_sum_all(s.remove(i)) == spec_sum_all(s) - s[i].liquidity,
    decreases i,
{
    if i == 0 {
        assert(s.remove(0) =~= s.skip(1));
    } else {
        lemma_sum_remove(s.skip(1), p, i - 1);
        assert(s.remove(i).skip(1) =~= s.skip(1).remove(i - 1));
        assert(s.remove(i)[0] == s[0]);
    }
}

/// One provider's share of a step's fee: the provider's part of the tick
/// liquidity, times the step amount, times the reward basis points.
pub open spec fn spec_share(amount: int, li: int, liq: int, rewards: int) -> int {
    spec_sat_mul(amount * li / liq, rewards) / 10_000
}

/// Spec mirror of [`Pool::collect_fees`]: attribute one step's fee share
/// to every position active at the pre-step price, in position order.
pub open spec fn spec_collect_fees(
    s: Seq<Position>,
    liq: int,
    p: int,
    amount: int,
    rewards: int,
    fees: Seq<(Seq<char>, int)>,
) -> Seq<(Seq<char>, int)>
    decreases s.len(),
{
    if s.len() == 0 {
        fees
    } else {
        let fees2 = if s[0].spec_is_active(p) {
            spec_ledger_add(fees, s[0].owner_id@, spec_share(amount, s[0].liquidity as int, liq, rewards))
        } else {
            fees
        };
        spec_collect_fees(s.skip(1), liq, p, amount, rewards, fees2)
    }
}

/// Generalised fee bound over a suffix of the positions: what one step
/// attributes is governed by the active liquidity of the suffix.
proof fn lemma_collect_fees_bound(
    s: Seq<Position>,
    liq: int,
    p: int,
    a: int,
    rw: int,
    fees: Seq<(Seq<char>, int)>,
)
    requires
        liq >= 1,
        0 <= a,
        0 <= rw,
        a * rw <= u128::MAX,
        0 <= spec_sum_active(s, p) <= liq,
        forall|i: int| 0 <= i < fees.len() ==> (#[trigger] fees[i]).1 >= 0,
        spec_ledger_total(fees) + s.len() * (a * rw) <= u128::MAX,
    ensures
        spec_ledger_total(fees) <= spec_ledger_total(spec_collect_fees(s, liq, p, a, rw, fees)),
        10_000 * liq * (spec_ledger_total(spec_collect_fees(s, liq, p, a, rw, fees))
            - spec_ledger_total(fees)) <= a * rw * spec_sum_active(s, p),
        10_000 * liq * (spec_ledger_total(spec_collect_fees(s, liq, p, a, rw, fees))
            - spec_ledger_total(fees)) >= a * rw * spec_sum_active(s, p) - s.len() * (liq * (rw
            + 10_000)),
        forall|i: int|
            0 <= i < spec_collect_fees(s, liq, p, a, rw, fees).len() ==> (
            #[trigger] spec_collect_fees(s, liq, p, a, rw, fees)[i]).1 >= 0,
    decreases s.len(),
{
    crate::fees::lemma_total_nonneg(fees);
    if s.len() == 0 {
        assert(10_000 * liq * (spec_ledger_total(fees) - spec_ledger_total(fees)) == 0)
            by (nonlinear_arith);
        assert(a * rw * spec_sum_active(s, p) == 0) by (nonlinear_arith)
            requires
                spec_sum_active(s, p) == 0,
        ;
        assert(s.len() * (liq * (rw + 10_000)) == 0) by (nonlinear_arith)
            requires
                s.len() == 0,
        ;
    } else {
        let tail = s.skip(1);
        let sum = spec_sum_active(s, p);
        let sum_tail = spec_sum_active(tail, p);
        lemma_sum_bounds(tail, p);
        if s[0].spec_is_active(p) {
            let l0 = s[0].liquidity as int;
            let base = a * l0 / liq;
            let share = spec_share(a, l0, liq, rw);
            assert(sum == l0 + sum_tail);
            assert(0 <= base <= a && base * liq <= a * l0) by (nonlinear_arith)
                requires
                    liq >= 1,
                    0 <= l0 <= liq,
                    0 <= a,
                    base == a * l0 / liq,
            ;
            if rw > 0 {
                assert(base <= (u128::MAX as int) / rw) by (nonlinear_arith)
                    requires
                        rw > 0,
                        0 <= base <= a,
                        a * rw <= u128::MAX,
                ;
            }
            assert(spec_sat_mul(base, rw) == base * rw);
            assert(base * rw <= a * rw) by (nonlinear_arith)
                requires
                    0 <= base <= a,
                    0 <= rw,
            ;
            assert(0 <= share <= a * rw && 10_000 * share <= base * rw) by (nonlinear_arith)
                requires
                    0 <= base,
                    0 <= rw,
                    base * rw <= a * rw,
                    share == base * rw / 10_000,
            ;
            assert(10_000 * liq * share <= a * rw * l0) by (nonlinear_arith)
                requires
                    liq >= 1,
                    0 <= rw,
                    10_000 * share <= base * rw,
                    base * liq <= a * l0,
                    0 <= share,
            ;
            vstd::arithmetic::div_mod::lemma_fundamental_div_mod(a * l0, liq);
            vstd::arithmetic::div_mod::lemma_fundamental_div_mod(base * rw, 10_000);
            assert(base * liq >= a * l0 - liq + 1) by (nonlinear_arith)
                requires
                    liq >= 1,
                    a * l0 == liq * base + (a * l0) % liq,
                    0 <= (a * l0) % liq < liq,
            ;
            assert(10_000 * share >= base * rw - 9_999) by (nonlinear_arith)
                requires
                    base * rw == 10_000 * share + (base * rw) % 10_000,
                    0 <= (base * rw) % 10_000 < 10_000,
            ;
            assert(10_000 * liq * share >= a * rw * l0 - liq * (rw + 10_000)) by (nonlinear_arith)
                requires
                    liq >= 1,
                    0 <= rw,
                    10_000 * share >= base * rw - 9_999,
                    base * liq >= a * l0 - liq + 1,
            ;
            let fees2 = spec_ledger_add(fees, s[0].owner_id@, share);
            assert(s.len() * (a * rw) >= 1 * (a * rw)) by (nonlinear_arith)
                requires
                    s.len() >= 1,
                    0 <= a * rw,
            ;
            crate::fees::lemma_ledger_total_add(fees, s[0].owner_id@, share);
            assert(tail.len() * (a * rw) + (a * rw) == s.len() * (a * rw)) by (nonlinear_arith)
                requires
                    tail.len() + 1 == s.len(),
            ;
            lemma_collect_fees_bound(tail, liq, p, a, rw, fees2);
            let total0 = spec_ledger_total(fees);
            let total2 = spec_ledger_total(fees2);
            let total3 = spec_ledger_total(spec_collect_fees(tail, liq, p, a, rw, fees2));
            assert(10_000 * liq * (total3 - total0) <= a * rw * sum) by (nonlinear_arith)
                requires
                    total2 == total0 + share,
                    10_000 * liq * share <= a * rw * l0,
                    10_000 * liq * (total3 - total2) <= a * rw * sum_tail,
                    sum == l0 + sum_tail,
            ;
            assert(10_000 * liq * (total3 - total0) >= a * rw * sum - s.len() * (liq * (rw
                + 10_000))) by (nonlinear_arith)
                requires
                    total2 == total0 + share,
                    10_000 * liq * share >= a * rw * l0 - liq * (rw + 10_000),
                    10_000 * liq * (total3 - total2) >= a * rw * sum_tail - tail.len() * (liq * (
                    rw + 10_000)),
                    sum == l0 + sum_tail,
                    tail.len() + 1 == s.len(),
            ;
        } else {
            assert(sum == sum_tail);
            assert(tail.len() * (a * rw) <= s.len() * (a * rw)) by (nonlinear_arith)
                requires
                    tail.len() <= s.len(),
                    0 <= a * rw,
            ;
            lemma_collect_fees_bound(tail, liq, p, a, rw, fees);
            assert(tail.len() * (liq * (rw + 10_000)) <= s.len() * (liq * (rw + 10_000)))
                by (nonlinear_arith)
                requires
                    tail.len() <= s.len(),
                    liq >= 1,
                    0 <= rw,
            ;
        }
    }
}

/// Fee conservation for one step of the walk: when the reward share is
/// `rw` basis points, the total value a step adds to the fee ledger is at
/// most `rw / 10000` of the step amount.  The tick liquidity is the sum
/// over the active positions, so the active shares telescope to the whole.
pub proof fn lemma_fee_conservation_step(
    s: Seq<Position>,
    liq: int,
    p: int,
    a: int,
    rw: int,
    fees: Seq<(Seq<char>, int)>,
)
    requires
        liq == spec_sum_active(s, p),
        liq >= 1,
        0 <= a,
        0 <= rw,
        a * rw <= u128::MAX,
        forall|i: int| 0 <= i < fees.len() ==> (#[trigger] fees[i]).1 >= 0,
        spec_ledger_total(fees) + s.len() * (a * rw) <= u128::MAX,
    ensures
        spec_ledger_total(fees) <= spec_ledger_total(spec_collect_fees(s, liq, p, a, rw, fees)),
        spec_ledger_total(spec_collect_fees(s, liq, p, a, rw, fees)) <= spec_ledger_total(fees)
            + a * rw / 10_000,
        10_000 * (spec_ledger_total(spec_collect_fees(s, liq, p, a, rw, fees))
            - spec_ledger_total(fees)) >= a * rw - s.len() * (rw + 10_000),
        forall|i: int|
            0 <= i < spec_collect_fees(s, liq, p, a, rw, fees).len() ==> (
            #[trigger] spec_collect_fees(s, liq, p, a, rw, fees)[i]).1 >= 0,
{
    lemma_collect_fees_bound(s, liq, p, a, rw, fees);
    let delta = spec_ledger_total(spec_collect_fees(s, liq, p, a, rw, fees))
        - spec_ledger_total(fees);
    assert(10_000 * delta <= a * rw) by (nonlinear_arith)
        requires
            liq >= 1,
            10_000 * liq * delta <= a * rw * liq,
            0 <= delta,
    ;
    assert(delta <= a * rw / 10_000) by (nonlinear_arith)
        requires
            10_000 * delta <= a * rw,
            0 <= delta,
    ;
    assert(10_000 * delta >= a * rw - s.len() * (rw + 10_000)) by (nonlinear_arith)
        requires
            liq >= 1,
            10_000 * liq * delta >= a * rw * liq - s.len() * (liq * (rw + 10_000)),
    ;
}

/// Spec mirror of one `Expense` step (the token argument is the output):
/// trade from `p` toward the boundary `b` at constant liquidity, capped by
/// the remaining output `rem`; returns the new price, the remaining
/// output, whether the boundary was reached, and the input consumed.
pub open spec fn spec_step_expense(liq: int, p: int, b: int, down: bool, rem: int) -> Result<
    (int, int, bool, int),
    EngineError,
> {
    if down {
        match spec_checked_mul_div(liq, p - b, PRICE_SCALE as int) {
            None => Err(EngineError::Overflow),
            Some(out_full) => {
                let in_full = liq * (PRICE_SCALE as int) / b - liq * (PRICE_SCALE as int) / p;
                if out_full > rem {
                    let dp = rem * (PRICE_SCALE as int) / liq;
                    let p2 = p - dp;
                    let in_part = liq * (PRICE_SCALE as int) / p2 - liq * (PRICE_SCALE as int) / p;
                    Ok((p2, 0, false, in_part))
                } else {
                    Ok((b, rem - out_full, true, in_full))
                }
            },
        }
    } else {
        match spec_checked_mul_div(liq, b - p, PRICE_SCALE as int) {
            None => Err(EngineError::Overflow),
            Some(in_full) => {
                let out_full = liq * (PRICE_SCALE as int) / p - liq * (PRICE_SCALE as int) / b;
                if out_full > rem {
                    let t = rem * (PRICE_SCALE as int) / liq;
                    let rp = (RECIP_SCALE as int) / p;
                    if t >= rp {
                        Err(EngineError::Overflow)
                    } else {
                        let cand = (RECIP_SCALE as int) / (rp - t);
                        let p2 = if cand < p {
                            p
                        } else if cand > b {
                            b
                        } else {
                            cand
                        };
                        match spec_checked_mul_div(liq, p2 - p, PRICE_SCALE as int) {
                            None => Err(EngineError::Overflow),
                            Some(in_part) => Ok((p2, 0, false, in_part)),
                        }
                    }
                } else {
                    Ok((b, rem - out_full, true, in_full))
                }
            },
        }
    }
}

/// Spec mirror of one `Return` step (the token argument is the input):
/// trade from `p` toward the boundary `b` at constant liquidity, capped by
/// the remaining input `rem`; returns the new price, the remaining input,
/// whether the boundary was reached, and the output produced.
pub open spec fn spec_step_return(liq: int, p: int, b: int, down: bool, rem: int) -> Result<
    (int, int, bool, int),
    EngineError,
> {
    if down {
        match spec_checked_mul_div(liq, p - b, PRICE_SCALE as int) {
            None => Err(EngineError::Overflow),
            Some(out_full) => {
                let in_full = liq * (PRICE_SCALE as int) / b - liq * (PRICE_SCALE as int) / p;
                if in_full > rem {
                    let t = rem * (PRICE_SCALE as int) / liq;
                    let rp = (RECIP_SCALE as int) / p;
                    let cand = (RECIP_SCALE as int) / (rp + t);
                    let p2 = if cand > p {
                        p
                    } else if cand < b {
                        b
                    } else {
                        cand
                    };
                    match spec_checked_mul_div(liq, p - p2, PRICE_SCALE as int) {
                        None => Err(EngineError::Overflow),
                        Some(out_part) => Ok((p2, 0, false, out_part)),
                    }
                } else {
                    Ok((b, rem - in_full, true, out_full))
                }
            },
        }
    } else {
        match spec_checked_mul_div(liq, b - p, PRICE_SCALE as int) {
            None => Err(EngineError::Overflow),
            Some(in_full) => {
                let out_full = liq * (PRICE_SCALE as int) / p - liq * (PRICE_SCALE as int) / b;
                if in_full > rem {
                    let dp = rem * (PRICE_SCALE as int) / liq;
                    let p2 = p + dp;
                    let out_part = liq * (PRICE_SCALE as int) / p - liq * (PRICE_SCALE as int) / p2;
                    Ok((p2, 0, false, out_part))
                } else {
                    Ok((b, rem - in_full, true, out_full))
                }
            },
        }
    }
}

/// Spec mirror of the tick walk: advance from rung `u` at price `price`
/// until the remaining constrained amount is consumed, a representational
/// limit is hit, or the pool runs out of liquidity.  Returns the paired
/// amount, the final price, and the fee ledger.
///
/// The walk refuses with `InsufficientLiquidity` in two situations: when
/// no position is active at the cursor and none lies strictly beyond it in
/// the direction of motion (the pool can never satisfy the request), and
/// when the cursor would have to leave the representable tick grid, even
/// if liquidity is still active at the edge rung -- prices beyond the grid
/// cannot be represented, so the walk cannot trade there.
pub open spec fn spec_walk(
    s: Seq<Position>,
    rewards: int,
    expense: bool,
    down: bool,
    u: int,
    price: int,
    rem: int,
    collected: int,
    fees: Seq<(Seq<char>, int)>,
) -> Result<(int, int, Seq<(Seq<char>, int)>), EngineError>
    decreases (if down {
        u
    } else {
        N_TICKS - u
    }) when 0 <= u < N_TICKS
{
    if rem <= 0 {
        Ok((collected, price, fees))
    } else {
        let liq = spec_sum_active(s, price);
        if liq == 0 && !spec_avail(s, price, down) {
            Err(EngineError::InsufficientLiquidity)
        } else if down && u == 0 {
            Err(EngineError::InsufficientLiquidity)
        } else if !down && u + 1 >= N_TICKS {
            Err(EngineError::InsufficientLiquidity)
        } else {
            let b = if down {
                spec_grid(u - 1)
            } else {
                spec_grid(u + 1)
            };
            let step = if expense {
                spec_step_expense(liq, price, b, down, rem)
            } else {
                spec_step_return(liq, price, b, down, rem)
            };
            match step {
                Err(e) => Err(e),
                Ok((p2, rem2, crossed, temp)) => {
                    if collected + temp > u128::MAX {
                        Err(EngineError::Overflow)
                    } else {
                        let fees2 = if liq > 0 {
                            spec_collect_fees(s, liq, price, temp, rewards, fees)
                        } else {
                            fees
                        };
                        if !crossed || rem2 <= 0 {
                            Ok((collected + temp, p2, fees2))
                        } else {
                            let u2 = if down {
                                u - 1
                            } else {
                                u + 1
                            };
                            spec_walk(s, rewards, expense, down, u2, p2, rem2, collected + temp, fees2)
                        }
                    }
                },
            }
        }
    }
}

/// One `Expense` step, executable; mirrors [`spec_step_expense`].
fn get_amount_in_within_tick(
    liquidity: u64,
    price: u128,
    boundary: u128,
    down: bool,
    remaining: u64,
) -> (r: Result<(u128, u64, bool, u128), EngineError>)
    requires
        1 <= price <= RECIP_SCALE,
        1 <= boundary <= RECIP_SCALE,
        down ==> boundary <= price,
        !down ==> price <= boundary,
        remaining >= 1,
    ensures
        step_matches(
            r,
            spec_step_expense(liquidity as int, price as int, boundary as int, down, remaining as int),
        ),
        r matches Ok((p2, rem2, crossed, temp)) ==> {
            &&& rem2 <= remaining
            &&& (crossed ==> p2 == boundary)
            &&& (!crossed ==> rem2 == 0)
            &&& (!crossed ==> (if down {
                boundary <= p2 <= price
            } else {
                price <= p2 <= boundary
            }))
        },
{
    let liq = liquidity as u128;
    proof {
        lemma_step_products(liq as int, remaining as int);
    }
    if down {
        let out_full = match checked_mul_div(liq, price - boundary, PRICE_SCALE) {
            Some(v) => v,
            None => {
                return Err(EngineError::Overflow);
            },
        };
        proof {
            lemma_div_le_div(liq as int, boundary as int, price as int);
        }
        let in_full = mul_div(liq, PRICE_SCALE, boundary) - mul_div(liq, PRICE_SCALE, price);
        if out_full > remaining as u128 {
            proof {
                lemma_zero_liq(liq as int, price as int, boundary as int);
                lemma_partial_down_stays_above(
                    liq as int,
                    price as int,
                    boundary as int,
                    remaining as int,
                    out_full as int,
                );
            }
            let dp = mul_div(remaining as u128, PRICE_SCALE, liq);
            let p2 = price - dp;
            proof {
                lemma_div_le_div(liq as int, p2 as int, price as int);
            }
            let in_part = mul_div(liq, PRICE_SCALE, p2) - mul_div(liq, PRICE_SCALE, price);
            Ok((p2, 0, false, in_part))
        } else {
            let consumed: u64 = out_full as u64;
            Ok((boundary, remaining - consumed, true, in_full))
        }
    } else {
        let in_full = match checked_mul_div(liq, boundary - price, PRICE_SCALE) {
            Some(v) => v,
            None => {
                return Err(EngineError::Overflow);
            },
        };
        proof {
            lemma_div_le_div(liq as int, price as int, boundary as int);
        }
        let out_full = mul_div(liq, PRICE_SCALE, price) - mul_div(liq, PRICE_SCALE, boundary);
        if out_full > remaining as u128 {
            proof {
                lemma_zero_liq(liq as int, price as int, boundary as int);
            }
            let t = mul_div(remaining as u128, PRICE_SCALE, liq);
            let rp = RECIP_SCALE / price;
            if t >= rp {
                return Err(EngineError::Overflow);
            }
            let cand = RECIP_SCALE / (rp - t);
            let p2 = if cand < price {
                price
            } else if cand > boundary {
                boundary
            } else {
                cand
            };
            let in_part = match checked_mul_div(liq, p2 - price, PRICE_SCALE) {
                Some(v) => v,
                None => {
                    return Err(EngineError::Overflow);
                },
            };
            Ok((p2, 0, false, in_part))
        } else {
            let consumed: u64 = out_full as u64;
            Ok((boundary, remaining - consumed, true, in_full))
        }
    }
}

/// One `Return` step, executable; mirrors [`spec_step_return`].
fn get_amount_out_within_tick(
    liquidity: u64,
    price: u128,
    boundary: u128,
    down: bool,
    remaining: u64,
) -> (r: Result<(u128, u64, bool, u128), EngineError>)
    requires
        1 <= price <= RECIP_SCALE,
        1 <= boundary <= RECIP_SCALE,
        down ==> boundary <= price,
        !down ==> price <= boundary,
        remaining >= 1,
    ensures
        step_matches(
            r,
            spec_step_return(liquidity as int, price as int, boundary as int, down, remaining as int),
        ),
        r matches Ok((p2, rem2, crossed, temp)) ==> {
            &&& rem2 <= remaining
            &&& (crossed ==> p2 == boundary)
            &&& (!crossed ==> rem2 == 0)
            &&& (!crossed ==> (if down {
                boundary <= p2 <= price
            } else {
                price <= p2 <= boundary
            }))
        },
{
    let liq = liquidity as u128;
    proof {
        lemma_step_products(liq as int, remaining as int);
    }
    if down {
        let out_full = match checked_mul_div(liq, price - boundary, PRICE_SCALE) {
            Some(v) => v,
            None => {
                return Err(EngineError::Overflow);
            },
        };
        proof {
            lemma_div_le_div(liq as int, boundary as int, price as int);
        }
        let in_full = mul_div(liq, PRICE_SCALE, boundary) - mul_div(liq, PRICE_SCALE, price);
        if in_full > remaining as u128 {
            proof {
                lemma_zero_liq(liq as int, price as int, boundary as int);
            }
            let t = mul_div(remaining as u128, PRICE_SCALE, liq);
            let rp = RECIP_SCALE / price;
            proof {
                assert(rp >= 1) by (nonlinear_arith)
                    requires
                        1 <= price <= RECIP_SCALE,
                        rp == (RECIP_SCALE as int) / (price as int),
                ;
                assert(t <= (remaining as int) * (PRICE_SCALE as int)) by (nonlinear_arith)
                    requires
                        liq >= 1,
                        t == (remaining as int) * (PRICE_SCALE as int) / (liq as int),
                        0 <= (remaining as int) * (PRICE_SCALE as int),
                ;
            }
            let cand = RECIP_SCALE / (rp + t);
            let p2 = if cand > price {
                price
            } else if cand < boundary {
                boundary
            } else {
                cand
            };
            let out_part = match checked_mul_div(liq, price - p2, PRICE_SCALE) {
                Some(v) => v,
                None => {
                    return Err(EngineError::Overflow);
                },
            };
            Ok((p2, 0, false, out_part))
        } else {
            let consumed: u64 = in_full as u64;
            Ok((boundary, remaining - consumed, true, out_full))
        }
    } else {
        let in_full = match checked_mul_div(liq, boundary - price, PRICE_SCALE) {
            Some(v) => v,
            None => {
                return Err(EngineError::Overflow);
            },
        };
        proof {
            lemma_div_le_div(liq as int, price as int, boundary as int);
        }
        let out_full = mul_div(liq, PRICE_SCALE, price) - mul_div(liq, PRICE_SCALE, boundary);
        if in_full > remaining as u128 {
            proof {
                lemma_zero_liq(liq as int, price as int, boundary as int);
                lemma_partial_down_stays_above(
                    liq as int,
                    boundary as int,
                    price as int,
                    remaining as int,
                    in_full as int,
                );
            }
            let dp = mul_div(remaining as u128, PRICE_SCALE, liq);
            let p2 = price + dp;
            proof {
                lemma_div_le_div(liq as int, price as int, p2 as int);
            }
            let out_part = mul_div(liq, PRICE_SCALE, price) - mul_div(liq, PRICE_SCALE, p2);
            Ok((p2, 0, false, out_part))
        } else {
            let consumed: u64 = in_full as u64;
            Ok((boundary, remaining - consumed, true, out_full))
        }
    }
}

/// Spec mirror of [`Pool::get_swap_result`]: the whole quote, from the
/// pool's cursor, as collected amount, final price and fee ledger.
pub open spec fn spec_swap_quote(
    pool: &Pool,
    token: Seq<char>,
    amount: int,
    direction: SwapDirection,
) -> Result<(int, int, Seq<(Seq<char>, int)>), EngineError> {
    if amount > crate::position::AMOUNT_INPUT_MAX {
        Err(EngineError::Overflow)
    } else {
        spec_walk(
            pool.positions@,
            pool.rewards as int,
            direction == SwapDirection::Expense,
            pool.spec_down(token, direction),
            pool.tick + 50_000,
            pool.sqrt_price as int,
            amount * (AMOUNT_SCALE as int),
            0,
            Seq::empty(),
        )
    }
}

/// The split share computation stays within 128 bits and under the step
/// amount.
proof fn lemma_share_fits(a: int, li: int, liq: int)
    requires
        1 <= liq <= u64::MAX,
        0 <= li <= liq,
        0 <= a <= u128::MAX,
    ensures
        (a / liq) * li <= a,
        0 <= (a / liq) * li,
        0 <= (a % liq) * li <= u128::MAX,
        (a / liq) * li + ((a % liq) * li) / liq <= a,
{
    let q = a / liq;
    let r = a % liq;
    vstd::arithmetic::div_mod::lemma_fundamental_div_mod(a, liq);
    assert(q * li <= a && 0 <= q * li && 0 <= r * li <= u128::MAX && q * li + (r * li) / liq
        <= a) by (nonlinear_arith)
        requires
            1 <= liq <= u64::MAX,
            0 <= li <= liq,
            0 <= a,
            a == liq * q + r,
            0 <= r < liq,
    ;
}

/// Spec mirror of [`Pool::refresh_positions`]: refresh every position in
/// order, failing on the first error.
pub open spec fn spec_refresh_all(s: Seq<Position>, sp: int, now: int) -> Result<
    Seq<Position>,
    EngineError,
>
    decreases s.len(),
{
    if s.len() == 0 {
        Ok(Seq::empty())
    } else {
        match spec_refresh(s[0], sp, now) {
            Err(e) => Err(e),
            Ok(p2) => match spec_refresh_all(s.skip(1), sp, now) {
                Err(e) => Err(e),
                Ok(rest) => Ok(seq![p2] + rest),
            },
        }
    }
}

/// Refreshing positions changes neither their liquidity nor their bounds,
/// so every liquidity sum, and well-formedness, is preserved.
pub proof fn lemma_refresh_all_preserves(s: Seq<Position>, sp: int, now: int, px: int)
    ensures
        spec_refresh_all(s, sp, now) matches Ok(s2) ==> {
            &&& s2.len() == s.len()
            &&& spec_sum_active(s2, px) == spec_sum_active(s, px)
            &&& spec_sum_all(s2) == spec_sum_all(s)
            &&& (forall|i: int| 0 <= i < s.len() ==> (#[trigger] s[i]).wf()) ==> (forall|i: int|
                0 <= i < s2.len() ==> (#[trigger] s2[i]).wf())
        },
    decreases s.len(),
{
    if s.len() > 0 && spec_refresh_all(s, sp, now) is Ok {
        lemma_refresh_all_preserves(s.skip(1), sp, now, px);
        let p2 = spec_refresh(s[0], sp, now)->Ok_0;
        let rest = spec_refresh_all(s.skip(1), sp, now)->Ok_0;
        let s2 = spec_refresh_all(s, sp, now)->Ok_0;
        assert(s2 =~= seq![p2] + rest);
        assert(s2[0] == p2);
        assert(s2.skip(1) =~= rest);
        assert(forall|i: int| 0 <= i < s.skip(1).len() ==> s.skip(1)[i] == s[i + 1]);
    }
}

/// A successful step consumes part of the remaining amount and hands back
/// a nonnegative paired amount.
proof fn lemma_step_bounds(liq: int, p: int, b: int, down: bool, rem: int, expense: bool)
    requires
        1 <= p <= RECIP_SCALE as int,
        1 <= b <= RECIP_SCALE as int,
        down ==> b <= p,
        !down ==> p <= b,
        rem >= 1,
        0 <= liq,
        (if expense {
            spec_step_expense(liq, p, b, down, rem)
        } else {
            spec_step_return(liq, p, b, down, rem)
        }) is Ok,
    ensures
        ({
            let (p2, rem2, crossed, temp) = (if expense {
                spec_step_expense(liq, p, b, down, rem)
            } else {
                spec_step_return(liq, p, b, down, rem)
            })->Ok_0;
            &&& 0 <= temp
            &&& 0 <= rem2 <= rem
            &&& (liq == 0 ==> temp == 0)
        }),
{
    let gs = PRICE_SCALE as int;
    if liq == 0 {
        assert(liq * (p - b) == 0 && liq * (b - p) == 0 && liq * gs == 0) by (nonlinear_arith)
            requires
                liq == 0,
        ;
    }
    if down {
        let out_full = liq * (p - b) / gs;
        let in_full = liq * gs / b - liq * gs / p;
        assert(0 <= out_full) by (nonlinear_arith)
            requires
                0 <= liq,
                b <= p,
                gs > 0,
                out_full == liq * (p - b) / gs,
        ;
        lemma_div_le_div(liq, b, p);
        let cons = if expense {
            out_full
        } else {
            in_full
        };
        if cons > rem {
            if liq == 0 {
                assert(liq * (p - b) == 0 && liq * gs == 0) by (nonlinear_arith)
                    requires
                        liq == 0,
                ;
            }
            if expense {
                lemma_partial_down_stays_above(liq, p, b, rem, out_full);
                let dp = rem * gs / liq;
                let p2 = p - dp;
                assert(0 <= dp) by (nonlinear_arith)
                    requires
                        liq >= 1,
                        rem >= 0,
                        gs > 0,
                        dp == rem * gs / liq,
                ;
                lemma_div_le_div(liq, p2, p);
            } else {
                let t = rem * gs / liq;
                let rp = (RECIP_SCALE as int) / p;
                let cand = (RECIP_SCALE as int) / (rp + t);
                let p2 = if cand > p {
                    p
                } else if cand < b {
                    b
                } else {
                    cand
                };
                assert(liq * (p - p2) / gs >= 0) by (nonlinear_arith)
                    requires
                        0 <= liq,
                        p2 <= p,
                        gs > 0,
                ;
            }
        }
    } else {
        let in_full = liq * (b - p) / gs;
        let out_full = liq * gs / p - liq * gs / b;
        assert(0 <= in_full) by (nonlinear_arith)
            requires
                0 <= liq,
                p <= b,
                gs > 0,
                in_full == liq * (b - p) / gs,
        ;
        lemma_div_le_div(liq, p, b);
        let cons = if expense {
            out_full
        } else {
            in_full
        };
        if cons > rem {
            if liq == 0 {
                assert(liq * (b - p) == 0 && liq * gs == 0) by (nonlinear_arith)
                    requires
                        liq == 0,
                ;
            }
            if expense {
                let t = rem * gs / liq;
                let rp = (RECIP_SCALE as int) / p;
                if t < rp {
                    let cand = (RECIP_SCALE as int) / (rp - t);
                    let p2 = if cand < p {
                        p
                    } else if cand > b {
                        b
                    } else {
                        cand
                    };
                    assert(liq * (p2 - p) / gs >= 0) by (nonlinear_arith)
                        requires
                            0 <= liq,
                            p <= p2,
                            gs > 0,
                    ;
                }
            } else {
                let dp = rem * gs / liq;
                let p2 = p + dp;
                assert(0 <= dp) by (nonlinear_arith)
                    requires
                        liq >= 1,
                        rem >= 0,
                        gs > 0,
                        dp == rem * gs / liq,
                ;
                lemma_div_le_div(liq, p, p2);
            }
        }
    }
}

/// Along a successful walk, the collected amount never shrinks.
proof fn lemma_walk_collected_monotone(
    s: Seq<Position>,
    rw: int,
    expense: bool,
    down: bool,
    u: int,
    p: int,
    rem: int,
    c: int,
    fees: Seq<(Seq<char>, int)>,
)
    requires
        0 <= u < N_TICKS,
        GRID_BASE <= p <= GRID_LIMIT,
        spec_grid(u) <= p <= spec_grid(u + 1),
        0 <= rem,
        spec_walk(s, rw, expense, down, u, p, rem, c, fees) is Ok,
    ensures
        c <= spec_walk(s, rw, expense, down, u, p, rem, c, fees)->Ok_0.0,
    decreases (if down {
        u
    } else {
        N_TICKS - u
    }),
{
    if rem <= 0 {
    } else {
        let liq = spec_sum_active(s, p);
        lemma_sum_bounds(s, 0);
        let b = if down {
            spec_grid(u - 1)
        } else {
            spec_grid(u + 1)
        };
        proof_grid_facts(u, down);
        let step = if expense {
            spec_step_expense(liq, p, b, down, rem)
        } else {
            spec_step_return(liq, p, b, down, rem)
        };
        lemma_sum_bounds(s, p);
        lemma_step_bounds(liq, p, b, down, rem, expense);
        let (p2, rem2, crossed, temp) = step->Ok_0;
        if !(!crossed || rem2 <= 0) {
            let u2 = if down {
                u - 1
            } else {
                u + 1
            };
            lemma_grid_bounds(u2);
            lemma_grid_bounds(u2 + 1);
            lemma_grid_mono(u2, u2 + 1);
            lemma_walk_collected_monotone(s, rw, expense, down, u2, p2, rem2, c + temp, (if liq > 0 {
                spec_collect_fees(s, liq, p, temp, rw, fees)
            } else {
                fees
            }));
        }
    }
}

/// The grid values a step uses are in range and ordered with the price.
proof fn proof_grid_facts(u: int, down: bool)
    requires
        0 <= u,
    ensures
        GRID_BASE <= spec_grid(u - 1) <= GRID_LIMIT,
        GRID_BASE <= spec_grid(u + 1) <= GRID_LIMIT,
        spec_grid(u - 1) <= spec_grid(u),
        spec_grid(u) <= spec_grid(u + 1),
        GRID_LIMIT < RECIP_SCALE,
{
    lemma_grid_bounds(u - 1);
    lemma_grid_bounds(u + 1);
    lemma_grid_mono(u - 1, u);
    lemma_grid_mono(u, u + 1);
}

/// Fee conservation across a whole walk: what the walk adds to the fee
/// ledger is at most the reward share of the whole collected amount.
/// Stated multiplicatively: ten thousand times the ledger growth is at
/// most the collected amount times the reward basis points.
pub proof fn lemma_walk_fee_conservation(
    s: Seq<Position>,
    rw: int,
    expense: bool,
    down: bool,
    u: int,
    p: int,
    rem: int,
    c: int,
    fees: Seq<(Seq<char>, int)>,
)
    requires
        0 <= u < N_TICKS,
        GRID_BASE <= p <= GRID_LIMIT,
        spec_grid(u) <= p <= spec_grid(u + 1),
        0 <= rem,
        0 <= c,
        0 <= rw,
        forall|i: int| 0 <= i < fees.len() ==> (#[trigger] fees[i]).1 >= 0,
        spec_walk(s, rw, expense, down, u, p, rem, c, fees) is Ok,
        (spec_walk(s, rw, expense, down, u, p, rem, c, fees)->Ok_0.0 - c) * rw <= u128::MAX,
        spec_ledger_total(fees) + (s.len() + 1) * ((spec_walk(
            s,
            rw,
            expense,
            down,
            u,
            p,
            rem,
            c,
            fees,
        )->Ok_0.0 - c) * rw) <= u128::MAX,
    ensures
        ({
            let (c2, p2, fees2) = spec_walk(s, rw, expense, down, u, p, rem, c, fees)->Ok_0;
            let dist = if down {
                u
            } else {
                N_TICKS - u
            };
            &&& spec_ledger_total(fees) <= spec_ledger_total(fees2)
            &&& 10_000 * (spec_ledger_total(fees2) - spec_ledger_total(fees)) <= (c2 - c) * rw
            &&& 10_000 * (spec_ledger_total(fees2) - spec_ledger_total(fees)) >= (c2 - c) * rw - (
            dist + 1) * (s.len() * (rw + 10_000))
            &&& forall|i: int| 0 <= i < fees2.len() ==> (#[trigger] fees2[i]).1 >= 0
        }),
    decreases (if down {
        u
    } else {
        N_TICKS - u
    }),
{
    let walk = spec_walk(s, rw, expense, down, u, p, rem, c, fees);
    let (c2, pf, fees_f) = walk->Ok_0;
    let dist = if down {
        u
    } else {
        N_TICKS - u
    };
    assert((dist + 1) * (s.len() * (rw + 10_000)) >= 0 && (dist + 1) * (s.len() * (rw + 10_000))
        >= s.len() * (rw + 10_000)) by (nonlinear_arith)
        requires
            0 <= dist,
            0 <= s.len(),
            0 <= rw,
    ;
    if rem <= 0 {
        assert(0 * rw == 0) by (nonlinear_arith);
    } else {
        let liq = spec_sum_active(s, p);
        let b = if down {
            spec_grid(u - 1)
        } else {
            spec_grid(u + 1)
        };
        proof_grid_facts(u, down);
        let step = if expense {
            spec_step_expense(liq, p, b, down, rem)
        } else {
            spec_step_return(liq, p, b, down, rem)
        };
        lemma_sum_bounds(s, p);
        lemma_step_bounds(liq, p, b, down, rem, expense);
        let (p2, rem2, crossed, temp) = step->Ok_0;
        let fees2 = if liq > 0 {
            spec_collect_fees(s, liq, p, temp, rw, fees)
        } else {
            fees
        };
        // The paired amount of this step is part of the final total.
        if !(!crossed || rem2 <= 0) {
            let u2 = if down {
                u - 1
            } else {
                u + 1
            };
            lemma_grid_bounds(u2);
            lemma_grid_bounds(u2 + 1);
            lemma_grid_mono(u2, u2 + 1);
            lemma_walk_collected_monotone(s, rw, expense, down, u2, p2, rem2, c + temp, fees2);
        }
        assert(c + temp <= c2);
        assert(temp * rw <= (c2 - c) * rw) by (nonlinear_arith)
            requires
                0 <= temp,
                temp <= c2 - c,
                0 <= rw,
        ;
        if liq > 0 {
            assert(s.len() * (temp * rw) <= s.len() * ((c2 - c) * rw)) by (nonlinear_arith)
                requires
                    temp * rw <= (c2 - c) * rw,
                    0 <= s.len(),
            ;
            assert((s.len() + 1) * ((c2 - c) * rw) >= s.len() * ((c2 - c) * rw) + 0)
                by (nonlinear_arith)
                requires
                    0 <= (c2 - c) * rw,
            ;
            lemma_fee_conservation_step(s, liq, p, temp, rw, fees);
        }
        let mid_total = spec_ledger_total(fees2);
        assert(10_000 * (mid_total - spec_ledger_total(fees)) >= temp * rw - s.len() * (rw
            + 10_000)) by {
            if liq > 0 {
            } else {
                assert(temp == 0);
                assert(0 * rw == 0) by (nonlinear_arith);
                assert(s.len() * (rw + 10_000) >= 0) by (nonlinear_arith)
                    requires
                        0 <= s.len(),
                        0 <= rw,
                ;
            }
        }
        assert(10_000 * (mid_total - spec_ledger_total(fees)) <= temp * rw) by {
            if liq > 0 {
                assert(mid_total - spec_ledger_total(fees) <= temp * rw / 10_000);
                assert(10_000 * (temp * rw / 10_000) <= temp * rw) by (nonlinear_arith)
                    requires
                        0 <= temp * rw,
                ;
                assert(10_000 * (mid_total - spec_ledger_total(fees)) <= 10_000 * (temp * rw
                    / 10_000)) by (nonlinear_arith)
                    requires
                        mid_total - spec_ledger_total(fees) <= temp * rw / 10_000,
                ;
            } else {
                assert(10_000 * (mid_total - spec_ledger_total(fees)) == 0) by (nonlinear_arith)
                    requires
                        mid_total == spec_ledger_total(fees),
                ;
                assert(temp * rw >= 0) by (nonlinear_arith)
                    requires
                        0 <= temp,
                        0 <= rw,
                ;
            }
        }
        if !crossed || rem2 <= 0 {
            assert(c2 == c + temp && fees_f == fees2);
            assert(10_000 * (spec_ledger_total(fees_f) - spec_ledger_total(fees)) >= (c2 - c) * rw
                - (dist + 1) * (s.len() * (rw + 10_000))) by (nonlinear_arith)
                requires
                    10_000 * (spec_ledger_total(fees_f) - spec_ledger_total(fees)) >= temp * rw
                        - s.len() * (rw + 10_000),
                    c2 - c == temp,
                    (dist + 1) * (s.len() * (rw + 10_000)) >= s.len() * (rw + 10_000),
            ;
        } else {
            let u2 = if down {
                u - 1
            } else {
                u + 1
            };
            lemma_grid_bounds(u2);
            lemma_grid_bounds(u2 + 1);
            lemma_grid_mono(u2, u2 + 1);
            assert(((c2 - (c + temp)) * rw) == (c2 - c) * rw - temp * rw) by (nonlinear_arith);
            let dt = mid_total - spec_ledger_total(fees);
            assert(dt <= temp * rw) by (nonlinear_arith)
                requires
                    10_000 * dt <= temp * rw,
                    0 <= dt,
            ;
            assert(mid_total + (s.len() + 1) * ((c2 - (c + temp)) * rw) <= u128::MAX)
                by (nonlinear_arith)
                requires
                    mid_total <= spec_ledger_total(fees) + temp * rw,
                    temp * rw <= (c2 - c) * rw,
                    0 <= temp * rw,
                    ((c2 - (c + temp)) * rw) == (c2 - c) * rw - temp * rw,
                    spec_ledger_total(fees) + (s.len() + 1) * ((c2 - c) * rw) <= u128::MAX,
                    0 <= s.len(),
            ;
            assert((c2 - (c + temp)) * rw <= u128::MAX) by (nonlinear_arith)
                requires
                    (c2 - c) * rw <= u128::MAX,
                    0 <= temp,
                    0 <= rw,
                    temp <= c2 - c,
            ;
            lemma_walk_fee_conservation(s, rw, expense, down, u2, p2, rem2, c + temp, fees2);
            assert(10_000 * (spec_ledger_total(fees_f) - spec_ledger_total(fees)) <= (c2 - c)
                * rw) by (nonlinear_arith)
                requires
                    10_000 * (spec_ledger_total(fees_f) - mid_total) <= (c2 - (c + temp)) * rw,
                    10_000 * (mid_total - spec_ledger_total(fees)) <= temp * rw,
                    ((c2 - (c + temp)) * rw) == (c2 - c) * rw - temp * rw,
            ;
            let dist2 = if down {
                u2
            } else {
                N_TICKS - u2
            };
            assert(dist2 + 1 == dist);
            assert(10_000 * (spec_ledger_total(fees_f) - spec_ledger_total(fees)) >= (c2 - c) * rw
                - (dist + 1) * (s.len() * (rw + 10_000))) by (nonlinear_arith)
                requires
                    10_000 * (spec_ledger_total(fees_f) - mid_total) >= (c2 - (c + temp)) * rw - (
                    dist2 + 1) * (s.len() * (rw + 10_000)),
                    10_000 * (mid_total - spec_ledger_total(fees)) >= temp * rw - s.len() * (rw
                        + 10_000),
                    ((c2 - (c + temp)) * rw) == (c2 - c) * rw - temp * rw,
                    dist2 + 1 == dist,
            ;
        }
    }
}

/// Fee conservation for a whole quote: when the providers' reward share
/// is `rewards` basis points, ten thousand times the sum of all values in
/// the collected fee ledger is at most the collected amount times
/// `rewards`, and at least that product minus an explicit rounding error
/// (one fee quantum and one reward share per position per step) -- the
/// ledger hands out the reward share of the traded volume, within
/// fixed-point rounding.
pub proof fn lemma_swap_fee_conservation(
    pool: &Pool,
    token: Seq<char>,
    amount: int,
    direction: SwapDirection,
)
    requires
        pool.wf(),
        0 <= amount,
        spec_swap_quote(pool, token, amount, direction) is Ok,
        ({
            let (c2, p2, fees2) = spec_swap_quote(pool, token, amount, direction)->Ok_0;
            &&& c2 * pool.rewards <= u128::MAX
            &&& (pool.positions@.len() + 1) * (c2 * pool.rewards) <= u128::MAX
        }),
    ensures
        ({
            let (c2, p2, fees2) = spec_swap_quote(pool, token, amount, direction)->Ok_0;
            &&& 0 <= c2
            &&& 0 <= spec_ledger_total(fees2)
            &&& 10_000 * spec_ledger_total(fees2) <= c2 * pool.rewards
            &&& 10_000 * spec_ledger_total(fees2) >= c2 * pool.rewards - ((N_TICKS + 1) as int) * (
            pool.positions@.len() * (pool.rewards + 10_000))
        }),
{
    let down = pool.spec_down(token, direction);
    let expense = direction == SwapDirection::Expense;
    let u = pool.tick + 50_000;
    let p = pool.sqrt_price as int;
    let rem = amount * (AMOUNT_SCALE as int);
    lemma_grid_bounds(u);
    lemma_grid_bounds(u + 1);
    assert(0 <= rem) by (nonlinear_arith)
        requires
            0 <= amount,
            rem == amount * (AMOUNT_SCALE as int),
            0 < AMOUNT_SCALE,
    ;
    let empty = Seq::<(Seq<char>, int)>::empty();
    assert(spec_ledger_total(empty) == 0);
    lemma_walk_collected_monotone(
        pool.positions@,
        pool.rewards as int,
        expense,
        down,
        u,
        p,
        rem,
        0,
        empty,
    );
    lemma_walk_fee_conservation(
        pool.positions@,
        pool.rewards as int,
        expense,
        down,
        u,
        p,
        rem,
        0,
        empty,
    );
    let dist = if down {
        u
    } else {
        N_TICKS - u
    };
    let (c2, p2, fees2) = spec_swap_quote(pool, token, amount, direction)->Ok_0;
    assert((dist + 1) * (pool.positions@.len() * ((pool.rewards as int) + 10_000)) <= ((N_TICKS
        + 1) as int) * (pool.positions@.len() * ((pool.rewards as int) + 10_000)))
        by (nonlinear_arith)
        requires
            0 <= dist <= N_TICKS,
            0 <= pool.positions@.len(),
            0 <= pool.rewards,
    ;
}

/// An executable step outcome agrees with a spec step outcome.
pub open spec fn step_matches(
    r: Result<(u128, u64, bool, u128), EngineError>,
    m: Result<(int, int, bool, int), EngineError>,
) -> bool {
    match r {
        Ok((p2, rem2, crossed, temp)) => m == Ok::<(int, int, bool, int), EngineError>(
            (p2 as int, rem2 as int, crossed, temp as int),
        ),
        Err(e) => m == Err::<(int, int, bool, int), EngineError>(e),
    }
}

/// The products a step forms stay within 128 bits.
proof fn lemma_step_products(liq: int, remaining: int)
    requires
        0 <= liq <= u64::MAX,
        0 <= remaining <= u64::MAX,
    ensures
        liq * (PRICE_SCALE as int) <= u128::MAX,
        remaining * (PRICE_SCALE as int) <= u128::MAX,
        0 <= remaining * (PRICE_SCALE as int),
{
    assert(liq * (PRICE_SCALE as int) <= u128::MAX && remaining * (PRICE_SCALE as int)
        <= u128::MAX && 0 <= remaining * (PRICE_SCALE as int)) by (nonlinear_arith)
        requires
            0 <= liq <= u64::MAX,
            0 <= remaining <= u64::MAX,
    ;
}

/// Zero liquidity moves nothing: both full-step amounts are zero.
proof fn lemma_zero_liq(liq: int, price: int, boundary: int)
    requires
        0 <= liq,
        1 <= price,
        1 <= boundary,
    ensures
        liq == 0 ==> liq * (price - boundary) == 0,
        liq == 0 ==> liq * (boundary - price) == 0,
        liq == 0 ==> liq * (PRICE_SCALE as int) == 0,
{
    if liq == 0 {
        assert(liq * (price - boundary) == 0 && liq * (boundary - price) == 0 && liq * (
        PRICE_SCALE as int) == 0) by (nonlinear_arith)
            requires
                liq == 0,
        ;
    }
}

/// Dividing by a smaller positive divisor gives at least as much.
proof fn lemma_div_le_div(l: int, d1: int, d2: int)
    requires
        0 <= l,
        1 <= d1 <= d2,
    ensures
        l * (PRICE_SCALE as int) / d2 <= l * (PRICE_SCALE as int) / d1,
        0 <= l * (PRICE_SCALE as int) / d2,
{
    assert(l * (PRICE_SCALE as int) / d2 <= l * (PRICE_SCALE as int) / d1 && 0 <= l * (
    PRICE_SCALE as int) / d2) by (nonlinear_arith)
        requires
            0 <= l,
            1 <= d1 <= d2,
    ;
}

/// A capped partial step down stays strictly above the boundary.
proof fn lemma_partial_down_stays_above(liq: int, p: int, b: int, rem: int, out_full: int)
    requires
        liq >= 1,
        1 <= b <= p,
        rem >= 0,
        out_full == liq * (p - b) / (PRICE_SCALE as int),
        out_full > rem,
    ensures
        rem * (PRICE_SCALE as int) / liq < p - b,
{
    let gs = PRICE_SCALE as int;
    assert(liq * (p - b) >= out_full * gs) by (nonlinear_arith)
        requires
            liq >= 1,
            b <= p,
            gs > 0,
            out_full == liq * (p - b) / gs,
    ;
    let dp = rem * gs / liq;
    assert(dp * liq <= rem * gs) by (nonlinear_arith)
        requires
            liq >= 1,
            rem >= 0,
            gs > 0,
            dp == rem * gs / liq,
    ;
    assert(rem * gs < out_full * gs) by (nonlinear_arith)
        requires
            rem < out_full,
            gs > 0,
    ;
    assert(dp < p - b) by (nonlinear_arith)
        requires
            dp * liq <= rem * gs,
            rem * gs < out_full * gs,
            out_full * gs <= liq * (p - b),
            liq >= 1,
    ;
}

impl Pool {
    /// Well-formedness: the tick brackets the price, every position is
    /// well formed, the total liquidity is representable, and the cached
    /// aggregate equals the sum over the positions active at the price.
    pub open spec fn wf(&self) -> bool {
        &&& tick_brackets(self.tick + 50_000, self.sqrt_price as int)
        &&& spec_sum_all(self.positions@) <= u64::MAX
        &&& self.liquidity == spec_sum_active(self.positions@, self.sqrt_price as int)
        &&& forall|i: int| 0 <= i < self.positions@.len() ==> (#[trigger] self.positions@[i]).wf()
    }

    /// Open a pool at a starting price (not a square root), with no
    /// positions and the two fee parameters in basis points.
    pub fn new(token0: String, token1: String, price: u128, protocol_fee: u16, rewards: u16) -> (r:
        Result<Pool, EngineError>)
        ensures
            match r {
                Ok(pool) => {
                    &&& pool.wf()
                    &&& pool.token0 == token0
                    &&& pool.token1 == token1
                    &&& pool.liquidity == 0
                    &&& pool.positions@.len() == 0
                    &&& pool.protocol_fee == protocol_fee
                    &&& pool.rewards == rewards
                    &&& price <= PRICE_INPUT_MAX
                    &&& pool.sqrt_price == crate::fixed::spec_isqrt(
                        price * (crate::PRICE_SCALE as int),
                    )
                    &&& tick_brackets(pool.tick + 50_000, pool.sqrt_price as int)
                },
                Err(e) => e == EngineError::PriceOutOfRange,
            },
            (r is Err) <==> (price > PRICE_INPUT_MAX || crate::fixed::spec_isqrt(
                price * (crate::PRICE_SCALE as int),
            ) < GRID_BASE || crate::fixed::spec_isqrt(price * (crate::PRICE_SCALE as int))
                >= spec_grid(N_TICKS as int)),
    {
        if price > PRICE_INPUT_MAX {
            return Err(EngineError::PriceOutOfRange);
        }
        let sqrt_price = isqrt(price * crate::PRICE_SCALE);
        let (u, _, _) = match locate(sqrt_price) {
            Ok(v) => v,
            Err(e) => {
                return Err(e);
            },
        };
        let tick: i32 = (u as i32) + TICK_FLOOR;
        let positions: Vec<Position> = Vec::new();
        let pool = Pool {
            token0,
            token1,
            liquidity: 0,
            sqrt_price,
            tick,
            positions,
            protocol_fee,
            rewards,
        };
        proof {
            assert(pool.positions@ =~= Seq::<Position>::empty());
        }
        Ok(pool)
    }

    /// The current square-root price.
    pub fn get_sqrt_price(&self) -> (r: u128)
        ensures
            r == self.sqrt_price,
    {
        self.sqrt_price
    }

    /// Aggregate liquidity of the positions active at `sqrt_price`: the
    /// tick liquidity of the walk.
    fn calculate_liquidity_within_tick(&self, sqrt_price: u128) -> (r: u64)
        requires
            spec_sum_all(self.positions@) <= u64::MAX,
        ensures
            r == spec_sum_active(self.positions@, sqrt_price as int),
    {
        let ghost s = self.positions@;
        let mut liquidity: u64 = 0;
        let mut i: usize = 0;
        proof {
            assert(s.take(0) =~= Seq::<Position>::empty());
        }
        while i < self.positions.len()
            invariant
                0 <= i <= s.len(),
                s == self.positions@,
                spec_sum_all(s) <= u64::MAX,
                liquidity == spec_sum_active(s.take(i as int), sqrt_price as int),
            decreases s.len() - i,
        {
            proof {
                lemma_sum_take_step(s, sqrt_price as int, i as int);
                lemma_sum_bounds(s.take(i as int), sqrt_price as int);
                lemma_sum_bounds(s.take(i as int + 1), sqrt_price as int);
                lemma_sum_all_take_le(s, i as int + 1);
            }
            let position = &self.positions[i];
            if position.is_active(sqrt_price) {
                liquidity = liquidity + position.liquidity;
            }
            i = i + 1;
        }
        proof {
            assert(s.take(s.len() as int) =~= s);
        }
        liquidity
    }

    /// Whether the trade moves the price down: output in token1, or input
    /// in token0.
    pub open spec fn spec_down(&self, token: Seq<char>, direction: SwapDirection) -> bool {
        (direction == SwapDirection::Expense && token == self.token1@) || (direction
            == SwapDirection::Return && token == self.token0@)
    }

    /// Whether some position lies strictly beyond `sqrt_price` in the
    /// direction the trade moves, so that a dry region can be crossed.
    fn check_available_liquidity(
        &self,
        sqrt_price: u128,
        token: &String,
        direction: SwapDirection,
    ) -> (r: bool)
        ensures
            r == spec_avail(
                self.positions@,
                sqrt_price as int,
                self.spec_down(token@, direction),
            ),
    {
        let ghost s = self.positions@;
        let down: bool = direction == SwapDirection::Expense && *token == self.token1 || direction
            == SwapDirection::Return && *token == self.token0;
        let mut i: usize = 0;
        while i < self.positions.len()
            invariant
                0 <= i <= s.len(),
                s == self.positions@,
                down == self.spec_down(token@, direction),
                forall|j: int|
                    0 <= j < i ==> !(if down {
                        s[j].sqrt_upper_bound_price < sqrt_price
                    } else {
                        s[j].sqrt_lower_bound_price > sqrt_price
                    }),
            decreases s.len() - i,
        {
            let position = &self.positions[i];
            if down {
                if position.sqrt_upper_bound_price < sqrt_price {
                    return true;
                }
            } else {
                if position.sqrt_lower_bound_price > sqrt_price {
                    return true;
                }
            }
            i = i + 1;
        }
        false
    }

    /// Recompute the cached aggregate liquidity from scratch.
    pub fn refresh_liquidity(&mut self)
        requires
            old(self).wf(),
        ensures
            final(self).wf(),
            final(self).liquidity == spec_sum_active(
                old(self).positions@,
                old(self).sqrt_price as int,
            ),
            *final(self) == (Pool { liquidity: final(self).liquidity, ..*old(self) }),
    {
        let liquidity = self.calculate_liquidity_within_tick(self.sqrt_price);
        self.liquidity = liquidity;
    }

    /// Append a position; if it is active at the current price its
    /// liquidity joins the cached aggregate.  Fails only when the total
    /// liquidity would no longer be representable; nothing changes then.
    pub fn open_position(&mut self, position: Position) -> (r: Result<(), EngineError>)
        requires
            old(self).wf(),
            position.wf(),
        ensures
            match r {
                Ok(()) => {
                    &&& final(self).wf()
                    &&& final(self).positions@ == old(self).positions@.push(position)
                    &&& final(self).liquidity == old(self).liquidity + (
                    if position.spec_is_active(old(self).sqrt_price as int) {
                        position.liquidity as int
                    } else {
                        0
                    })
                    &&& *final(self) == (Pool {
                        liquidity: final(self).liquidity,
                        positions: final(self).positions,
                        ..*old(self)
                    })
                    &&& spec_sum_all(old(self).positions@) + position.liquidity <= u64::MAX
                },
                Err(e) => {
                    &&& e == EngineError::Overflow
                    &&& *final(self) == *old(self)
                    &&& spec_sum_all(old(self).positions@) + position.liquidity > u64::MAX
                },
            },
    {
        let ghost s = self.positions@;
        let ghost p = self.sqrt_price as int;
        // Total liquidity across all positions, to keep every later sum
        // representable.
        let mut total: u64 = 0;
        let mut i: usize = 0;
        proof {
            assert(s.take(0) =~= Seq::<Position>::empty());
        }
        while i < self.positions.len()
            invariant
                0 <= i <= s.len(),
                s == self.positions@,
                spec_sum_all(s) <= u64::MAX,
                total == spec_sum_all(s.take(i as int)),
            decreases s.len() - i,
        {
            proof {
                lemma_sum_take_step(s, 0, i as int);
                lemma_sum_bounds(s.take(i as int), 0);
                lemma_sum_bounds(s.take(i as int + 1), 0);
                lemma_sum_all_take_le(s, i as int + 1);
            }
            total = total + self.positions[i].liquidity;
            i = i + 1;
        }
        proof {
            assert(s.take(s.len() as int) =~= s);
        }
        if position.liquidity > u64::MAX - total {
            return Err(EngineError::Overflow);
        }
        proof {
            lemma_sum_push(s, p, position);
            lemma_sum_bounds(s, p);
        }
        if position.is_active(self.sqrt_price) {
            self.liquidity = self.liquidity + position.liquidity;
        }
        self.positions.push(position);
        Ok(())
    }

    /// Remove the position at `id`; later indices shift down.  If it was
    /// active, its liquidity leaves the cached aggregate.
    pub fn close_position(&mut self, id: usize)
        requires
            old(self).wf(),
            id < old(self).positions@.len(),
        ensures
            final(self).wf(),
            final(self).positions@ == old(self).positions@.remove(id as int),
            final(self).liquidity == old(self).liquidity - (
            if old(self).positions@[id as int].spec_is_active(old(self).sqrt_price as int) {
                old(self).positions@[id as int].liquidity as int
            } else {
                0
            }),
            *final(self) == (Pool {
                liquidity: final(self).liquidity,
                positions: final(self).positions,
                ..*old(self)
            }),
    {
        let ghost s = self.positions@;
        let ghost p = self.sqrt_price as int;
        proof {
            lemma_sum_remove(s, p, id as int);
            lemma_sum_bounds(s.remove(id as int), p);
            if s[id as int].spec_is_active(p) {
                lemma_active_le_sum(s, p, id as int);
            }
        }
        let active = self.positions[id].is_active(self.sqrt_price);
        if active {
            let l = self.positions[id].liquidity;
            self.liquidity = self.liquidity - l;
        }
        self.positions.remove(id);
    }

    /// Attribute one step's fee to every position active at the pre-step
    /// price: each active position's owner gains its share of the step
    /// amount, proportional to its part of the tick liquidity, times the
    /// reward basis points.
    fn collect_fees(&self, liquidity: u64, sqrt_price: u128, amount: u128, map: &mut FeeLedger)
        requires
            liquidity > 0,
            liquidity as int == spec_sum_active(self.positions@, sqrt_price as int),
        ensures
            final(map).view_seq() == spec_collect_fees(
                self.positions@,
                liquidity as int,
                sqrt_price as int,
                amount as int,
                self.rewards as int,
                old(map).view_seq(),
            ),
    {
        let ghost s = self.positions@;
        let ghost p = sqrt_price as int;
        let ghost goal = spec_collect_fees(
            s,
            liquidity as int,
            p,
            amount as int,
            self.rewards as int,
            old(map).view_seq(),
        );
        let mut i: usize = 0;
        proof {
            assert(s.skip(0) =~= s);
        }
        while i < self.positions.len()
            invariant
                0 <= i <= s.len(),
                s == self.positions@,
                liquidity > 0,
                liquidity as int == spec_sum_active(s, p),
                p == sqrt_price as int,
                goal == spec_collect_fees(
                    s.skip(i as int),
                    liquidity as int,
                    p,
                    amount as int,
                    self.rewards as int,
                    map.view_seq(),
                ),
            decreases s.len() - i,
        {
            let position = &self.positions[i];
            if position.is_active(sqrt_price) {
                proof {
                    lemma_active_le_sum(s, p, i as int);
                    lemma_share_fits(amount as int, position.liquidity as int, liquidity as int);
                    lemma_mul_div_split(amount as int, position.liquidity as int, liquidity as int);
                }
                let li: u128 = position.liquidity as u128;
                let liqw: u128 = liquidity as u128;
                let q: u128 = amount / liqw;
                let rm: u128 = amount % liqw;
                let base: u128 = q * li + (rm * li) / liqw;
                let share: u128 = sat_mul(base, self.rewards as u128) / 10_000;
                map.add(&position.owner_id, share);
            }
            i = i + 1;
            proof {
                assert(s.skip(i - 1).skip(1) =~= s.skip(i as int));
                assert(s.skip(i - 1)[0] == s[i - 1]);
            }
        }
        proof {
            assert(s.skip(s.len() as int) =~= Seq::<Position>::empty());
        }
    }

    /// A dry-run swap: walk the tick grid from the current price until the
    /// requested amount is consumed, attributing fees step by step, and
    /// report the paired amount, the final price, and the tick liquidity
    /// there.  The pool itself is not changed.
    ///
    /// Under `Expense` the token argument is the output asset and `amount`
    /// the desired output; under `Return` it is the input asset and
    /// `amount` the provided input.  `amount` counts whole tokens.
    ///
    /// Errors, exactly as [`spec_swap_quote`] states them:
    /// `InsufficientLiquidity` when the pool can never satisfy the request
    /// (no active liquidity and none beyond the cursor in the direction of
    /// motion) and also when the walk would leave the representable tick
    /// grid with amount still outstanding; `Overflow` when the requested
    /// amount, an intermediate product, or the accumulated total exceeds
    /// the fixed-point range.
    pub fn get_swap_result(&self, token: &String, amount: u64, direction: SwapDirection) -> (r:
        Result<SwapResult, EngineError>)
        requires
            self.wf(),
        ensures
            match r {
                Ok(res) => {
                    &&& spec_swap_quote(self, token@, amount as int, direction) == Ok::<
                        (int, int, Seq<(Seq<char>, int)>),
                        EngineError,
                    >((res.amount as int, res.new_sqrt_price as int, res.collected_fees.view_seq()))
                    &&& res.new_liquidity == spec_sum_active(
                        self.positions@,
                        res.new_sqrt_price as int,
                    )
                },
                Err(e) => spec_swap_quote(self, token@, amount as int, direction) == Err::<
                    (int, int, Seq<(Seq<char>, int)>),
                    EngineError,
                >(e),
            },
    {
        let ghost s = self.positions@;
        if amount > crate::position::AMOUNT_INPUT_MAX {
            return Err(EngineError::Overflow);
        }
        let mut remaining: u64 = amount * AMOUNT_SCALE;
        let expense: bool = direction == SwapDirection::Expense;
        let down: bool = direction == SwapDirection::Expense && *token == self.token1 || direction
            == SwapDirection::Return && *token == self.token0;
        let table = crate::tick::TickTable::build();
        let tick_index: i32 = self.tick - TICK_FLOOR;
        let mut u: usize = tick_index as usize;
        let mut price: u128 = self.sqrt_price;
        let mut collected: u128 = 0;
        let mut fees = FeeLedger::new();
        proof {
            lemma_grid_bounds(u as int);
            lemma_grid_bounds(u as int + 1);
        }
        while remaining > 0
            invariant
                self.wf(),
                s == self.positions@,
                0 <= u < N_TICKS,
                table.wf(),
                expense == (direction == SwapDirection::Expense),
                down == self.spec_down(token@, direction),
                remaining > 0 ==> spec_grid(u as int) <= price as int <= spec_grid(u as int + 1),
                remaining > 0 ==> GRID_BASE <= price <= GRID_LIMIT,
                spec_swap_quote(self, token@, amount as int, direction) == spec_walk(
                    s,
                    self.rewards as int,
                    expense,
                    down,
                    u as int,
                    price as int,
                    remaining as int,
                    collected as int,
                    fees.view_seq(),
                ),
            decreases remaining, (if down {
                u as int
            } else {
                N_TICKS - u
            }),
        {
            let liq = self.calculate_liquidity_within_tick(price);
            if liq == 0 && !self.check_available_liquidity(price, token, direction) {
                return Err(EngineError::InsufficientLiquidity);
            }
            if down && u == 0 {
                return Err(EngineError::InsufficientLiquidity);
            }
            if !down && u + 1 >= N_TICKS {
                return Err(EngineError::InsufficientLiquidity);
            }
            let b = if down {
                table.at(u - 1)
            } else {
                table.at(u + 1)
            };
            proof {
                lemma_grid_bounds(u as int - 1);
                lemma_grid_bounds(u as int + 1);
                lemma_grid_mono(u as int - 1, u as int);
            }
            let step = if expense {
                get_amount_in_within_tick(liq, price, b, down, remaining)
            } else {
                get_amount_out_within_tick(liq, price, b, down, remaining)
            };
            let (p2, rem2, crossed, temp) = match step {
                Ok(v) => v,
                Err(e) => {
                    return Err(e);
                },
            };
            if temp > u128::MAX - collected {
                return Err(EngineError::Overflow);
            }
            if liq > 0 {
                self.collect_fees(liq, price, temp, &mut fees);
            }
            collected = collected + temp;
            if crossed {
                if down {
                    u = u - 1;
                } else {
                    u = u + 1;
                }
            }
            price = p2;
            remaining = rem2;
            proof {
                lemma_grid_bounds(u as int);
                lemma_grid_bounds(u as int + 1);
                lemma_grid_mono(u as int, u as int + 1);
            }
        }
        let new_liquidity = self.calculate_liquidity_within_tick(price);
        Ok(
            SwapResult {
                amount: collected,
                new_liquidity,
                new_sqrt_price: price,
                collected_fees: fees,
            },
        )
    }

    /// Refresh every position against the current pool price: recompute
    /// both locked amounts, account active wall-time, re-derive the active
    /// flags.  On an error nothing is changed.
    pub fn refresh_positions(&mut self, current_timestamp: u64) -> (r: Result<(), EngineError>)
        requires
            old(self).wf(),
            forall|i: int|
                0 <= i < old(self).positions@.len() ==> (#[trigger] old(
                    self,
                ).positions@[i]).last_update <= current_timestamp,
        ensures
            match spec_refresh_all(
                old(self).positions@,
                old(self).sqrt_price as int,
                current_timestamp as int,
            ) {
                Ok(s2) => {
                    &&& r == Ok::<(), EngineError>(())
                    &&& final(self).positions@ == s2
                    &&& *final(self) == (Pool { positions: final(self).positions, ..*old(self) })
                    &&& final(self).wf()
                },
                Err(e) => r == Err::<(), EngineError>(e) && *final(self) == *old(self),
            },
    {
        let ghost s = self.positions@;
        let ghost sp = self.sqrt_price as int;
        let ghost now = current_timestamp as int;
        let mut updated: Vec<Position> = Vec::new();
        let mut i: usize = 0;
        proof {
            assert(s.skip(0) =~= s);
            if spec_refresh_all(s, sp, now) is Ok {
                assert(updated@ + spec_refresh_all(s, sp, now)->Ok_0 =~= spec_refresh_all(
                    s,
                    sp,
                    now,
                )->Ok_0);
            }
        }
        while i < self.positions.len()
            invariant
                0 <= i <= s.len(),
                s == self.positions@,
                sp == self.sqrt_price as int,
                now == current_timestamp as int,
                updated@.len() == i,
                forall|j: int|
                    0 <= j < s.len() ==> (#[trigger] s[j]).last_update <= current_timestamp,
                match spec_refresh_all(s.skip(i as int), sp, now) {
                    Ok(rest) => spec_refresh_all(s, sp, now) == Ok::<Seq<Position>, EngineError>(
                        updated@ + rest,
                    ),
                    Err(e) => spec_refresh_all(s, sp, now) == Err::<Seq<Position>, EngineError>(e),
                },
            decreases s.len() - i,
        {
            let q = &self.positions[i];
            let mut np = Position {
                owner_id: q.owner_id.clone(),
                liquidity: q.liquidity,
                token0_locked: q.token0_locked,
                token1_locked: q.token1_locked,
                tick_lower_bound_price: q.tick_lower_bound_price,
                tick_upper_bound_price: q.tick_upper_bound_price,
                sqrt_lower_bound_price: q.sqrt_lower_bound_price,
                sqrt_upper_bound_price: q.sqrt_upper_bound_price,
                is_active: q.is_active,
                last_update: q.last_update,
                rewards_for_time: q.rewards_for_time,
                fees_earned_token0: q.fees_earned_token0,
                fees_earned_token1: q.fees_earned_token1,
            };
            proof {
                assert(np == s[i as int]);
                assert(s.skip(i as int)[0] == s[i as int]);
                assert(s.skip(i as int).skip(1) =~= s.skip(i as int + 1));
            }
            let ghost prior = updated@;
            match np.refresh(self.sqrt_price, current_timestamp) {
                Ok(()) => {
                    updated.push(np);
                    proof {
                        assert(spec_refresh(s[i as int], sp, now) == Ok::<Position, EngineError>(
                            np,
                        ));
                        match spec_refresh_all(s.skip(i as int + 1), sp, now) {
                            Ok(rest) => {
                                assert(spec_refresh_all(s.skip(i as int), sp, now) == Ok::<
                                    Seq<Position>,
                                    EngineError,
                                >(seq![np] + rest));
                                assert(updated@ + rest =~= prior + (seq![np] + rest));
                            },
                            Err(e) => {
                                assert(spec_refresh_all(s.skip(i as int), sp, now) == Err::<
                                    Seq<Position>,
                                    EngineError,
                                >(e));
                            },
                        }
                    }
                },
                Err(e) => {
                    return Err(e);
                },
            };
            i = i + 1;
        }
        proof {
            assert(s.skip(s.len() as int) =~= Seq::<Position>::empty());
            assert(updated@ + Seq::<Position>::empty() =~= updated@);
            lemma_refresh_all_preserves(s, sp, now, sp);
        }
        self.positions = updated;
        Ok(())
    }

    /// Commit a dry-run result: adopt its price and aggregate liquidity
    /// and re-derive the tick from the new price.  A price outside the
    /// representable tick grid is refused and nothing changes.
    pub fn apply_swap_result(&mut self, swap_result: &SwapResult) -> (r: Result<(), EngineError>)
        requires
            old(self).wf(),
            swap_result.new_liquidity == spec_sum_active(
                old(self).positions@,
                swap_result.new_sqrt_price as int,
            ),
        ensures
            final(self).wf(),
            match r {
                Ok(()) => {
                    &&& GRID_BASE <= swap_result.new_sqrt_price < spec_grid(N_TICKS as int)
                    &&& final(self).sqrt_price == swap_result.new_sqrt_price
                    &&& final(self).liquidity == swap_result.new_liquidity
                    &&& *final(self) == (Pool {
                        liquidity: final(self).liquidity,
                        sqrt_price: final(self).sqrt_price,
                        tick: final(self).tick,
                        ..*old(self)
                    })
                },
                Err(e) => {
                    &&& e == EngineError::PriceOutOfRange
                    &&& !(GRID_BASE <= swap_result.new_sqrt_price < spec_grid(N_TICKS as int))
                    &&& *final(self) == *old(self)
                },
            },
    {
        match locate(swap_result.new_sqrt_price) {
            Ok((u, _, _)) => {
                self.tick = (u as i32) + TICK_FLOOR;
                self.liquidity = swap_result.new_liquidity;
                self.sqrt_price = swap_result.new_sqrt_price;
                Ok(())
            },
            Err(e) => Err(e),
        }
    }
}

} // verus!
