//! Fixed-point arithmetic for a concentrated-liquidity price curve: exact
//! multiply-divide, conversion between ticks and square-root prices, price
//! and amount deltas, liquidity conversions, one swap step, and the bitmap
//! of initialized ticks.
pub mod bit_math;
pub mod bits;
pub mod error;
pub mod full_math;
pub mod liquidity_math;
pub mod sqrt_price_math;
pub mod swap_math;
pub mod tick_bit_map;
pub mod tick_bitmap;
pub mod tick_math;
pub mod u256;
pub mod unsafe_math;
