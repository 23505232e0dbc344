//! Integer square roots over `u128` and conservative sqrt-price slippage
//! bounds for a concentrated-liquidity market maker.

pub mod constants;
pub mod slippage;
pub mod sqrt;

pub use constants::{BPS_DENOMINATOR, MAX_SQRT_PRICE, MIN_SQRT_PRICE};
pub use slippage::{get_sqrt_price_slippage_bounds, SqrtPriceSlippageBounds};
pub use sqrt::{sqrt_u128, sqrt_u128_ceil};
