//! The failures of the library's computations.
use vstd::prelude::*;

verus! {

/// Each variant is a distinct failure that callers branch on.
#[derive(Debug)]
pub enum UniswapV3MathError {
    DenominatorIsZero,
    ResultIsU256MAX,
    SqrtPriceIsZero,
    LiquidityIsZero,
    ProductDivAmount,
    DenominatorIsLteProdOne,
    LiquiditySub,
    LiquidityAdd,
    T,
    R,
    ZeroValue,
    TickSpacingError,
    SafeCastToU160Overflow,
    SqrtPriceIsLteQuotient,
    SafeCastToU128Overflow,
    Overflow,
    MiddlewareError(String),
}

impl UniswapV3MathError {
    /// A description of the failure.
    pub fn to_string(&self) -> String {
        match self {
            UniswapV3MathError::DenominatorIsZero => "Denominator is 0".to_owned(),
            UniswapV3MathError::ResultIsU256MAX => "Result is U256::MAX".to_owned(),
            UniswapV3MathError::SqrtPriceIsZero => "Sqrt price is 0".to_owned(),
            UniswapV3MathError::LiquidityIsZero => "Liquidity is 0".to_owned(),
            UniswapV3MathError::ProductDivAmount => {
                "require((product = amount * sqrtPX96) / amount == sqrtPX96 && numerator1 > product);".to_owned()
            },
            UniswapV3MathError::DenominatorIsLteProdOne => {
                "Denominator is less than or equal to prod_1".to_owned()
            },
            UniswapV3MathError::LiquiditySub => "Liquidity Sub".to_owned(),
            UniswapV3MathError::LiquidityAdd => "Liquidity Add".to_owned(),
            UniswapV3MathError::T => {
                "The given tick must be less than, or equal to, the maximum tick".to_owned()
            },
            UniswapV3MathError::R => {
                "Second inequality must be < because the price can never reach the price at the max tick".to_owned()
            },
            UniswapV3MathError::ZeroValue => {
                "Can not get most significant bit or least significant bit on zero value".to_owned()
            },
            UniswapV3MathError::TickSpacingError => {
                "Tick is not a multiple of the tick spacing".to_owned()
            },
            UniswapV3MathError::SafeCastToU160Overflow => "Overflow when casting to U160".to_owned(),
            UniswapV3MathError::SqrtPriceIsLteQuotient => {
                "Sqrt price is less than or equal to quotient".to_owned()
            },
            UniswapV3MathError::SafeCastToU128Overflow => "Overflow when casting to U128".to_owned(),
            UniswapV3MathError::Overflow => "Overflow".to_owned(),
            UniswapV3MathError::MiddlewareError(_) => {
                "Middleware error when getting next_initialized_tick_within_one_word".to_owned()
            },
        }
    }
}

} // verus!
