use vstd::prelude::*;

use crate::constants::{BPS_DENOMINATOR, MAX_SQRT_PRICE, MIN_SQRT_PRICE};
use crate::sqrt::{
    ceil_sqrt_of, floor_sqrt_of, is_ceil_sqrt, is_floor_sqrt, sqrt_u128, sqrt_u128_ceil,
};

verus! {

/// Scale applied to the radicands `10000 - bps` and `10000 + bps`: their
/// square roots then carry three more decimal digits than the roots of the
/// bare radicands.
pub const SLIPPAGE_PRECISION: u128 = 1_000_000;

/// The factor that stands for 1 after the square root: `sqrt(10000 * 1_000_000)`.
pub const SQRT_SLIPPAGE_DENOMINATOR: u128 = 100_000;

/// Min/max sqrt-price bounds for slippage protection.
#[derive(Debug, Clone, Copy, PartialEq, Eq, Structural)]
pub struct SqrtPriceSlippageBounds {
    /// The lower bound of the window.
    pub min_sqrt_price: u128,
    /// The upper bound of the window.
    pub max_sqrt_price: u128,
}

/// The tolerance, clamped to `BPS_DENOMINATOR`.
pub open spec fn capped_bps(bps: u16) -> int {
    if bps > BPS_DENOMINATOR {
        BPS_DENOMINATOR as int
    } else {
        bps as int
    }
}

/// Lower scale factor: the floor of `sqrt((10000 - bps) * 1_000_000)`.
pub open spec fn lower_factor(bps: u16) -> int {
    floor_sqrt_of((BPS_DENOMINATOR - capped_bps(bps)) * SLIPPAGE_PRECISION)
}

/// Upper scale factor: the ceiling of `sqrt((10000 + bps) * 1_000_000)`.
pub open spec fn upper_factor(bps: u16) -> int {
    ceil_sqrt_of((BPS_DENOMINATOR + capped_bps(bps)) * SLIPPAGE_PRECISION)
}

/// `sqrt_price * factor / 100_000`, the product saturating at `u128::MAX`.
pub open spec fn scaled_sqrt_price(sqrt_price: int, factor: int) -> int {
    (if sqrt_price * factor > u128::MAX {
        u128::MAX as int
    } else {
        sqrt_price * factor
    }) / SQRT_SLIPPAGE_DENOMINATOR as int
}

/// The lower bound of the window: the scaled price, raised to `MIN_SQRT_PRICE`.
pub open spec fn slippage_min_of(sqrt_price: u128, bps: u16) -> int {
    let s = scaled_sqrt_price(sqrt_price as int, lower_factor(bps));
    if s < MIN_SQRT_PRICE {
        MIN_SQRT_PRICE as int
    } else {
        s
    }
}

/// The upper bound of the window: the scaled price, lowered to `MAX_SQRT_PRICE`.
pub open spec fn slippage_max_of(sqrt_price: u128, bps: u16) -> int {
    let s = scaled_sqrt_price(sqrt_price as int, upper_factor(bps));
    if s > MAX_SQRT_PRICE {
        MAX_SQRT_PRICE as int
    } else {
        s
    }
}

/// `sqrt_price * factor / 100_000`, saturating the product.
fn scale_sqrt_price(sqrt_price: u128, factor: u128) -> (r: u128)
    ensures
        r == scaled_sqrt_price(sqrt_price as int, factor as int),
{
    let product: u128 = match sqrt_price.checked_mul(factor) {
        Some(p) => p,
        None => u128::MAX,
    };
    product / SQRT_SLIPPAGE_DENOMINATOR
}

/// A floor root of a radicand at most `100_000^2` is at most `100_000`.
proof fn lemma_floor_root_at_most(v: int, r: int)
    requires
        v <= 100_000 * 100_000,
        is_floor_sqrt(v, r),
    ensures
        r <= 100_000,
{
    if r > 100_000 {
        assert(r * r > 100_000 * 100_000) by (nonlinear_arith)
            requires r > 100_000;
    }
}

/// A ceiling root of a radicand at least `100_000^2` is at least `100_000`.
proof fn lemma_ceil_root_at_least(v: int, r: int)
    requires
        v >= 100_000 * 100_000,
        is_ceil_sqrt(v, r),
    ensures
        r >= 100_000,
{
    if r < 100_000 {
        assert(r * r < 100_000 * 100_000) by (nonlinear_arith)
            requires 0 <= r < 100_000;
    }
}

/// Computes a min/max sqrt-price window for slippage protection.
///
/// The tolerance is clamped to `BPS_DENOMINATOR`, so the radicand
/// `10000 - bps` never goes below zero. The lower factor is a floor root and
/// the upper factor a ceiling root: both widen the window. The bounds are
/// kept within `[MIN_SQRT_PRICE, MAX_SQRT_PRICE]`.
pub fn get_sqrt_price_slippage_bounds(
    sqrt_price: u128,
    slippage_tolerance_bps: u16,
) -> (r: SqrtPriceSlippageBounds)
    ensures
        r.min_sqrt_price == slippage_min_of(sqrt_price, slippage_tolerance_bps),
        r.max_sqrt_price == slippage_max_of(sqrt_price, slippage_tolerance_bps),
        MIN_SQRT_PRICE <= r.min_sqrt_price,
        r.max_sqrt_price <= MAX_SQRT_PRICE,
        MIN_SQRT_PRICE <= sqrt_price <= MAX_SQRT_PRICE ==> r.min_sqrt_price <= sqrt_price
            <= r.max_sqrt_price,
        MIN_SQRT_PRICE <= sqrt_price <= MAX_SQRT_PRICE ==> r.min_sqrt_price
            <= r.max_sqrt_price,
{
    let capped_bps: u16 = if slippage_tolerance_bps < BPS_DENOMINATOR {
        slippage_tolerance_bps
    } else {
        BPS_DENOMINATOR
    };
    let bps = capped_bps as u128;
    let bps_denominator = BPS_DENOMINATOR as u128;
    let lower_radicand = (bps_denominator - bps) * SLIPPAGE_PRECISION;
    let upper_radicand = (bps_denominator + bps) * SLIPPAGE_PRECISION;
    let lower = sqrt_u128(lower_radicand);
    let upper = sqrt_u128_ceil(upper_radicand);
    proof {
        lemma_floor_root_at_most(lower_radicand as int, lower as int);
        lemma_ceil_root_at_least(upper_radicand as int, upper as int);
        let sp = sqrt_price as int;
        assert(sp * lower <= sp * 100_000) by (nonlinear_arith)
            requires 0 <= sp, lower <= 100_000;
        assert(sp * 100_000 <= sp * upper) by (nonlinear_arith)
            requires 0 <= sp, upper >= 100_000;
    }
    let scaled_lower = scale_sqrt_price(sqrt_price, lower);
    let scaled_upper = scale_sqrt_price(sqrt_price, upper);
    let min_sqrt_price = if scaled_lower < MIN_SQRT_PRICE {
        MIN_SQRT_PRICE
    } else {
        scaled_lower
    };
    let max_sqrt_price = if scaled_upper > MAX_SQRT_PRICE {
        MAX_SQRT_PRICE
    } else {
        scaled_upper
    };
    SqrtPriceSlippageBounds { min_sqrt_price, max_sqrt_price }
}

} // verus!
