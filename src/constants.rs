use vstd::prelude::*;

verus! {

/// Denominator of a tolerance in basis points: 10000 bps is 100%.
pub const BPS_DENOMINATOR: u16 = 10000;

/// Smallest sqrt price (Q64.64) that the protocol accepts.
pub const MIN_SQRT_PRICE: u128 = 4295048016;

/// Largest sqrt price (Q64.64) that the protocol accepts.
pub const MAX_SQRT_PRICE: u128 = 79226673515401279992447579055;

} // verus!
