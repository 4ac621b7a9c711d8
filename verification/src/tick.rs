//! The tick grid: a geometric ladder of square-root prices.
//!
//! Tick `t` carries the square root of the price at `BASIS^(t/2)`, where
//! `BASIS` is one basis point above one.  The grid is defined iteratively:
//! each rung multiplies the one below it by `GRID_RATIO_NUM / GRID_RATIO_DEN`
//! (the square root of `BASIS` to eighteen decimal places) and rounds down.
//! `GRID_BASE` anchors the lowest representable tick at `BASIS^(TICK_FLOOR/2)`,
//! so tick 0 sits at a square-root price of one to within a relative error
//! of about 1e-8.
//!
//! Because each rung is a deterministic function of the one below, the grid
//! is provably monotone, and the tick of a price can be defined as the
//! unique rung bracketing it; the round-trip law [`lemma_tick_round_trip`]
//! follows.

use vstd::prelude::*;

use crate::errors::EngineError;
use crate::fixed::mul_div;

verus! {

/// Numerator of the per-tick ratio of square-root prices: the square root
/// of 1.0001, scaled by `GRID_RATIO_DEN` and rounded to nearest.
pub const GRID_RATIO_NUM: u128 = 1_000_049_998_750_062_496;

/// Denominator of the per-tick ratio.
pub const GRID_RATIO_DEN: u128 = 1_000_000_000_000_000_000;

/// Square-root price at the lowest representable tick (`TICK_FLOOR`),
/// scaled by `PRICE_SCALE`: 1.0001 to the power `TICK_FLOOR / 2`.
pub const GRID_BASE: u128 = 820_952_592_059_666;

/// Rungs above which the grid saturates; never reached for indices up to
/// `N_TICKS`, whose rung stays below 1.9e19.
pub const GRID_CAP: u128 = 20_000_000_000_000_000_000;

/// An upper bound on every rung: `GRID_CAP * GRID_RATIO_NUM / GRID_RATIO_DEN`.
pub const GRID_LIMIT: u128 = 20_000_999_975_001_249_920;

/// Number of tick intervals of the grid.
pub const N_TICKS: usize = 200_000;

/// Lowest representable tick.
pub const TICK_FLOOR: i32 = -50_000;

/// Highest representable tick.
pub const TICK_CEIL: i32 = 150_000;

/// One grid step: multiply by the per-tick ratio, rounding down.  Above
/// `GRID_CAP` the grid saturates, which keeps every rung representable.
pub open spec fn spec_grid_step(g: int) -> int {
    if g > GRID_CAP { g } else { g * (GRID_RATIO_NUM as int) / (GRID_RATIO_DEN as int) }
}

/// The grid itself: rung `u` counts tick intervals above `TICK_FLOOR`.
pub open spec fn spec_grid(u: int) -> int
    decreases u,
{
    if u <= 0 {
        GRID_BASE as int
    } else {
        spec_grid_step(spec_grid(u - 1))
    }
}

/// Rung `u` is below the saturation cap, hence still strictly ordered.
pub open spec fn grid_ok(u: int) -> bool {
    spec_grid(u) <= GRID_CAP
}

/// `u` is the rung index of price `p`: `p` lies in the interval
/// `[spec_grid(u), spec_grid(u + 1))`.
pub open spec fn tick_brackets(u: int, p: int) -> bool {
    &&& 0 <= u < N_TICKS
    &&& spec_grid(u) <= p < spec_grid(u + 1)
}

/// Every rung lies between the anchor and the saturation limit.
pub proof fn lemma_grid_bounds(u: int)
    ensures
        GRID_BASE <= spec_grid(u) <= GRID_LIMIT,
    decreases u,
{
    if u <= 0 {
    } else {
        lemma_grid_bounds(u - 1);
        let p = spec_grid(u - 1);
        if p <= GRID_CAP {
            assert(p * (GRID_RATIO_NUM as int) / (GRID_RATIO_DEN as int) >= p) by (nonlinear_arith)
                requires
                    p >= 0,
            ;
            assert(p * (GRID_RATIO_NUM as int) / (GRID_RATIO_DEN as int) <= GRID_LIMIT) by (nonlinear_arith)
                requires
                    0 <= p <= GRID_CAP,
            ;
        }
    }
}

/// The grid never decreases.
pub proof fn lemma_grid_mono(u1: int, u2: int)
    requires
        u1 <= u2,
    ensures
        spec_grid(u1) <= spec_grid(u2),
    decreases u2 - u1,
{
    if u1 < u2 {
        lemma_grid_mono(u1, u2 - 1);
        lemma_grid_bounds(u2 - 1);
        let p = spec_grid(u2 - 1);
        if u2 > 0 && p <= GRID_CAP {
            assert(p * (GRID_RATIO_NUM as int) / (GRID_RATIO_DEN as int) >= p) by (nonlinear_arith)
                requires
                    p >= 0,
            ;
        }
    }
}

/// Below the cap, consecutive rungs are strictly apart.
pub proof fn lemma_grid_strict(u: int)
    requires
        0 <= u,
        grid_ok(u),
    ensures
        spec_grid(u) < spec_grid(u + 1),
{
    lemma_grid_bounds(u);
    let p = spec_grid(u);
    assert(p * (GRID_RATIO_NUM as int) / (GRID_RATIO_DEN as int) >= p + 1) by (nonlinear_arith)
        requires
            GRID_BASE <= p <= GRID_CAP,
    ;
}

/// A price is bracketed by at most one rung.
pub proof fn lemma_bracket_unique(u1: int, u2: int, p: int)
    requires
        tick_brackets(u1, p),
        tick_brackets(u2, p),
    ensures
        u1 == u2,
{
    if u1 < u2 {
        lemma_grid_mono(u1 + 1, u2);
    }
    if u2 < u1 {
        lemma_grid_mono(u2 + 1, u1);
    }
}

/// Round-trip law: converting a representable tick to its square-root price
/// and that price back to a tick returns the same tick.  Stated over the
/// grid: the rung of tick `t` brackets its own price, and bracketing pins
/// the rung uniquely (`lemma_bracket_unique`).  The `grid_ok` premise
/// holds for every representable tick whenever [`grid_within_cap`]
/// returns true, which [`lemma_grid_ok_mono`] spreads down the grid; a
/// test pins that answer.
pub proof fn lemma_tick_round_trip(u: int)
    requires
        0 <= u < N_TICKS,
        grid_ok(u),
    ensures
        tick_brackets(u, spec_grid(u)),
        forall|v: int| tick_brackets(v, spec_grid(u)) ==> v == u,
{
    lemma_grid_strict(u);
    assert forall|v: int| tick_brackets(v, spec_grid(u)) implies v == u by {
        lemma_bracket_unique(v, u, spec_grid(u));
    }
}

/// Being below the saturation cap is inherited downward: if a rung is
/// below the cap, so is every rung under it.
pub proof fn lemma_grid_ok_mono(u1: int, u2: int)
    requires
        u1 <= u2,
        grid_ok(u2),
    ensures
        grid_ok(u1),
{
    lemma_grid_mono(u1, u2);
}

/// Whether the highest representable rung is below the saturation cap --
/// and with it, by [`lemma_grid_ok_mono`], every representable rung, so
/// that [`lemma_grid_strict`] and [`lemma_tick_round_trip`] apply to the
/// whole grid.  The answer is computed by running the chain once; a test
/// pins it to true.
pub fn grid_within_cap() -> (b: bool)
    ensures
        b == grid_ok(N_TICKS as int),
        b ==> forall|u: int| u <= N_TICKS ==> grid_ok(u),
{
    let mut u: usize = 0;
    let mut g: u128 = GRID_BASE;
    while u < N_TICKS
        invariant
            0 <= u <= N_TICKS,
            g == spec_grid(u as int),
        decreases N_TICKS - u,
    {
        proof {
            lemma_grid_bounds(u as int);
        }
        g = grid_step(g);
        u = u + 1;
    }
    let b = g <= GRID_CAP;
    proof {
        if b {
            assert forall|v: int| v <= N_TICKS implies grid_ok(v) by {
                lemma_grid_ok_mono(v, N_TICKS as int);
            }
        }
    }
    b
}

/// One grid step, executable.
fn grid_step(g: u128) -> (r: u128)
    requires
        GRID_BASE <= g <= GRID_LIMIT,
    ensures
        r == spec_grid_step(g as int),
{
    if g > GRID_CAP {
        g
    } else {
        proof {
            assert((g as int) * (GRID_RATIO_NUM as int) <= u128::MAX) by (nonlinear_arith)
                requires
                    0 <= g <= GRID_CAP,
            ;
        }
        mul_div(g, GRID_RATIO_NUM, GRID_RATIO_DEN)
    }
}

/// Find the rung bracketing `p`, returning the rung index and the two
/// grid values around it.
pub(crate) fn locate(p: u128) -> (r: Result<(usize, u128, u128), EngineError>)
    ensures
        match r {
            Ok((u, g, g1)) => {
                &&& tick_brackets(u as int, p as int)
                &&& g == spec_grid(u as int)
                &&& g1 == spec_grid(u as int + 1)
            },
            Err(e) => {
                &&& e == EngineError::PriceOutOfRange
                &&& (p < GRID_BASE || p >= spec_grid(N_TICKS as int))
            },
        },
        (r is Err) <==> (p < GRID_BASE || p >= spec_grid(N_TICKS as int)),
{
    if p < GRID_BASE {
        proof {
            lemma_grid_mono(0, N_TICKS as int);
        }
        return Err(EngineError::PriceOutOfRange);
    }
    let mut u: usize = 0;
    let mut g: u128 = GRID_BASE;
    proof {
        lemma_grid_bounds(0);
    }
    let mut g1: u128 = grid_step(g);
    while g1 <= p
        invariant
            0 <= u < N_TICKS,
            g == spec_grid(u as int),
            g1 == spec_grid(u as int + 1),
            g <= p,
        decreases N_TICKS - u,
    {
        if u + 1 == N_TICKS {
            return Err(EngineError::PriceOutOfRange);
        }
        u = u + 1;
        g = g1;
        proof {
            lemma_grid_bounds(u as int);
        }
        g1 = grid_step(g);
    }
    proof {
        lemma_grid_mono(u as int + 1, N_TICKS as int);
    }
    Ok((u, g, g1))
}

/// Square-root price at a tick: `BASIS^(tick/2)`, on the iterative grid.
pub fn tick_to_sqrt_price(tick: i32) -> (r: Result<u128, EngineError>)
    ensures
        TICK_FLOOR <= tick <= TICK_CEIL ==> r == Ok::<u128, EngineError>(
            spec_grid(tick + 50_000) as u128,
        ),
        !(TICK_FLOOR <= tick <= TICK_CEIL) ==> r == Err::<u128, EngineError>(
            EngineError::InvalidRange,
        ),
{
    if tick < TICK_FLOOR || tick > TICK_CEIL {
        return Err(EngineError::InvalidRange);
    }
    let target: usize = (tick - TICK_FLOOR) as usize;
    let mut u: usize = 0;
    let mut g: u128 = GRID_BASE;
    while u < target
        invariant
            0 <= u <= target <= N_TICKS,
            g == spec_grid(u as int),
        decreases target - u,
    {
        proof {
            lemma_grid_bounds(u as int);
        }
        g = grid_step(g);
        u = u + 1;
    }
    Ok(g)
}

/// Tick of a square-root price: the tick whose grid rung brackets it.
pub fn sqrt_price_to_tick(sqrt_price: u128) -> (r: Result<i32, EngineError>)
    ensures
        match r {
            Ok(t) => {
                &&& TICK_FLOOR <= t < TICK_CEIL
                &&& tick_brackets(t + 50_000, sqrt_price as int)
            },
            Err(e) => e == EngineError::PriceOutOfRange,
        },
        (r is Err) <==> (sqrt_price < GRID_BASE || sqrt_price >= spec_grid(N_TICKS as int)),
{
    match locate(sqrt_price) {
        Ok((u, _, _)) => Ok(u as i32 + TICK_FLOOR),
        Err(e) => Err(e),
    }
}

/// All rungs of the grid, precomputed so that a walk across many ticks can
/// look each boundary up instead of recomputing the chain.
pub struct TickTable {
    pub rungs: Vec<u128>,
}

impl TickTable {
    /// The table holds exactly the grid.
    pub open spec fn wf(&self) -> bool {
        &&& self.rungs.len() == N_TICKS + 1
        &&& forall|u: int| 0 <= u <= N_TICKS ==> self.rungs[u] == spec_grid(u)
    }

    /// Precompute every rung.
    pub fn build() -> (t: TickTable)
        ensures
            t.wf(),
    {
        let mut rungs: Vec<u128> = Vec::new();
        let mut g: u128 = GRID_BASE;
        rungs.push(g);
        let mut u: usize = 0;
        while u < N_TICKS
            invariant
                0 <= u <= N_TICKS,
                rungs.len() == u + 1,
                g == spec_grid(u as int),
                forall|v: int| 0 <= v <= u ==> rungs[v] == spec_grid(v),
            decreases N_TICKS - u,
        {
            proof {
                lemma_grid_bounds(u as int);
            }
            g = grid_step(g);
            rungs.push(g);
            u = u + 1;
        }
        TickTable { rungs }
    }

    /// Rung `u` of the grid.
    pub fn at(&self, u: usize) -> (g: u128)
        requires
            self.wf(),
            u <= N_TICKS,
        ensures
            g == spec_grid(u as int),
    {
        self.rungs[u]
    }
}

} // verus!
