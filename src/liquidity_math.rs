//! Liquidity changes, and conversions between liquidity and token amounts.
use vstd::prelude::*;
use vstd::arithmetic::div_mod::lemma_small_mod;
use crate::error::UniswapV3MathError;
use crate::full_math::{mul_div, mul_div_result, word_result};
use crate::sqrt_price_math::{q96, q96_word};
use crate::u256::{U256, word_modulus, wrapping_sub, div, shl, lemma_word_limbs, lemma_pow2_256};

verus! {

/// What `add_delta` returns: the liquidity moved by a signed delta, when
/// the result stays within 128 bits.
pub open spec fn add_delta_result(x: int, y: int) -> Result<u128, UniswapV3MathError> {
    if y < 0 {
        if -y > x {
            Err(UniswapV3MathError::LiquiditySub)
        } else {
            Ok((x + y) as u128)
        }
    } else if x + y > u128::MAX {
        Err(UniswapV3MathError::LiquidityAdd)
    } else {
        Ok((x + y) as u128)
    }
}

/// Adds a signed liquidity delta, failing on underflow below zero or
/// overflow past 128 bits.
pub fn add_delta(x: u128, y: i128) -> (r: Result<u128, UniswapV3MathError>)
    ensures
        r == add_delta_result(x as int, y as int),
{
    if y < 0 {
        let magnitude: u128 = ((-(y + 1)) as u128) + 1;
        if magnitude > x {
            Err(UniswapV3MathError::LiquiditySub)
        } else {
            Ok(x - magnitude)
        }
    } else {
        let z = x.wrapping_add(y as u128);
        if z < x {
            Err(UniswapV3MathError::LiquidityAdd)
        } else {
            Ok(z)
        }
    }
}

/// Adding a zero delta leaves the liquidity unchanged.
pub proof fn lemma_add_delta_zero(x: u128)
    ensures
        add_delta_result(x as int, 0) == Ok::<u128, UniswapV3MathError>(x),
{
}

/// Adding a delta and then its negation gives back the liquidity, when
/// neither step crosses a bound.
pub proof fn lemma_add_delta_round_trip(x: u128, y: i128)
    requires
        y > i128::MIN,
        add_delta_result(x as int, y as int) is Ok,
    ensures
        add_delta_result(
            add_delta_result(x as int, y as int)->Ok_0 as int,
            -(y as int),
        ) == Ok::<u128, UniswapV3MathError>(x),
{
}

/// The absolute difference of two words.
pub open spec fn distance(a: nat, b: nat) -> nat {
    if a > b {
        (a - b) as nat
    } else {
        (b - a) as nat
    }
}

/// A word result cast down to 128 bits, failing where it does not fit.
pub open spec fn to_u128_result(r: Result<nat, UniswapV3MathError>) -> Result<
    u128,
    UniswapV3MathError,
> {
    match r {
        Err(e) => Err(e),
        Ok(v) => if v > u128::MAX {
            Err(UniswapV3MathError::SafeCastToU128Overflow)
        } else {
            Ok(v as u128)
        },
    }
}

/// Liquidity for an amount of token0 over a price range:
/// `amount0 * (a * b / 2^96) / |b - a|`.
pub open spec fn liquidity_for_amount0(a: nat, b: nat, amount0: nat) -> Result<
    u128,
    UniswapV3MathError,
> {
    match mul_div_result(a, b, q96()) {
        Err(e) => Err(e),
        Ok(intermediate) => to_u128_result(
            mul_div_result(amount0, intermediate, distance(a, b)),
        ),
    }
}

/// Liquidity for an amount of token1 over a price range:
/// `amount1 * 2^96 / |b - a|`.
pub open spec fn liquidity_for_amount1(a: nat, b: nat, amount1: nat) -> Result<
    u128,
    UniswapV3MathError,
> {
    to_u128_result(mul_div_result(amount1, q96(), distance(a, b)))
}

/// The most liquidity both amounts afford at the current price.
pub open spec fn liquidity_for_amounts(
    price: nat,
    a: nat,
    b: nat,
    amount0: nat,
    amount1: nat,
) -> Result<u128, UniswapV3MathError> {
    let lower = if a > b { b } else { a };
    let upper = if a > b { a } else { b };
    if price <= lower {
        liquidity_for_amount0(lower, upper, amount0)
    } else if price < upper {
        match liquidity_for_amount0(price, upper, amount0) {
            Err(e) => Err(e),
            Ok(l0) => match liquidity_for_amount1(lower, price, amount1) {
                Err(e) => Err(e),
                Ok(l1) => Ok(if l0 < l1 { l0 } else { l1 }),
            },
        }
    } else {
        liquidity_for_amount1(lower, upper, amount1)
    }
}

/// Token0 worth of a liquidity over a price range:
/// `(liquidity * 2^96 * |b - a| / b) / a`.
pub open spec fn amount0_for_liquidity(a: nat, b: nat, liquidity: nat) -> Result<
    nat,
    UniswapV3MathError,
> {
    if a == 0 || b == 0 {
        Err(UniswapV3MathError::SqrtPriceIsZero)
    } else {
        match mul_div_result(liquidity * q96(), distance(a, b), b) {
            Err(e) => Err(e),
            Ok(n) => Ok(n / a),
        }
    }
}

/// Token1 worth of a liquidity over a price range:
/// `liquidity * |b - a| / 2^96`.
pub open spec fn amount1_for_liquidity(a: nat, b: nat, liquidity: nat) -> Result<
    nat,
    UniswapV3MathError,
> {
    mul_div_result(liquidity, distance(a, b), q96())
}

/// Both token amounts a liquidity is worth at the current price.
pub open spec fn amounts_for_liquidity(price: nat, a: nat, b: nat, liquidity: nat) -> Result<
    (nat, nat),
    UniswapV3MathError,
> {
    let lower = if a > b { b } else { a };
    let upper = if a > b { a } else { b };
    if price <= lower {
        match amount0_for_liquidity(lower, upper, liquidity) {
            Err(e) => Err(e),
            Ok(x) => Ok((x, 0nat)),
        }
    } else if price < upper {
        match amount0_for_liquidity(price, upper, liquidity) {
            Err(e) => Err(e),
            Ok(x) => match amount1_for_liquidity(lower, price, liquidity) {
                Err(e) => Err(e),
                Ok(y) => Ok((x, y)),
            },
        }
    } else {
        match amount1_for_liquidity(lower, upper, liquidity) {
            Err(e) => Err(e),
            Ok(y) => Ok((0nat, y)),
        }
    }
}

fn distance_word(a: U256, b: U256) -> (r: U256)
    ensures
        r.val() == distance(a.val(), b.val()),
{
    proof {
        lemma_word_limbs(a);
        lemma_word_limbs(b);
        lemma_small_mod(distance(a.val(), b.val()), word_modulus());
    }
    if a.gt(&b) {
        wrapping_sub(a, b)
    } else {
        wrapping_sub(b, a)
    }
}

fn word_to_u128(w: Result<U256, UniswapV3MathError>) -> (r: Result<u128, UniswapV3MathError>)
    ensures
        r == to_u128_result(word_result(w)),
{
    match w {
        Err(e) => Err(e),
        Ok(v) => if v.gt(&U256::from_u128(u128::MAX)) {
            Err(UniswapV3MathError::SafeCastToU128Overflow)
        } else {
            Ok(v.to_u128())
        },
    }
}

/// The liquidity that an amount of token0 buys over a price range.
pub fn get_liquidity_for_amount0(
    sqrt_ratio_a_x96: U256,
    sqrt_ratio_b_x96: U256,
    amount0: U256,
) -> (r: Result<u128, UniswapV3MathError>)
    ensures
        r == liquidity_for_amount0(sqrt_ratio_a_x96.val(), sqrt_ratio_b_x96.val(), amount0.val()),
{
    let diff = distance_word(sqrt_ratio_a_x96, sqrt_ratio_b_x96);
    let intermediate = match mul_div(sqrt_ratio_a_x96, sqrt_ratio_b_x96, q96_word()) {
        Ok(v) => v,
        Err(e) => return Err(e),
    };
    word_to_u128(mul_div(amount0, intermediate, diff))
}

/// The liquidity that an amount of token1 buys over a price range.
pub fn get_liquidity_for_amount1(
    sqrt_ratio_a_x96: U256,
    sqrt_ratio_b_x96: U256,
    amount1: U256,
) -> (r: Result<u128, UniswapV3MathError>)
    ensures
        r == liquidity_for_amount1(sqrt_ratio_a_x96.val(), sqrt_ratio_b_x96.val(), amount1.val()),
{
    let diff = distance_word(sqrt_ratio_a_x96, sqrt_ratio_b_x96);
    word_to_u128(mul_div(amount1, q96_word(), diff))
}

/// The most liquidity that both amounts buy, given the current price and a
/// price range.
pub fn get_liquidity_for_amounts(
    sqrt_ratio_x96: U256,
    sqrt_ratio_a_x96: U256,
    sqrt_ratio_b_x96: U256,
    amount0: U256,
    amount1: U256,
) -> (r: Result<u128, UniswapV3MathError>)
    ensures
        r == liquidity_for_amounts(
            sqrt_ratio_x96.val(),
            sqrt_ratio_a_x96.val(),
            sqrt_ratio_b_x96.val(),
            amount0.val(),
            amount1.val(),
        ),
{
    let (lower, upper) = if sqrt_ratio_a_x96.gt(&sqrt_ratio_b_x96) {
        (sqrt_ratio_b_x96, sqrt_ratio_a_x96)
    } else {
        (sqrt_ratio_a_x96, sqrt_ratio_b_x96)
    };
    if sqrt_ratio_x96.le(&lower) {
        get_liquidity_for_amount0(lower, upper, amount0)
    } else if sqrt_ratio_x96.lt(&upper) {
        let liq0 = match get_liquidity_for_amount0(sqrt_ratio_x96, upper, amount0) {
            Ok(v) => v,
            Err(e) => return Err(e),
        };
        let liq1 = match get_liquidity_for_amount1(lower, sqrt_ratio_x96, amount1) {
            Ok(v) => v,
            Err(e) => return Err(e),
        };
        Ok(if liq0 < liq1 {
            liq0
        } else {
            liq1
        })
    } else {
        get_liquidity_for_amount1(lower, upper, amount1)
    }
}

/// The amount of token0 that a liquidity is worth over a price range.
pub fn get_amount0_for_liquidity(
    sqrt_ratio_a_x96: U256,
    sqrt_ratio_b_x96: U256,
    liquidity: u128,
) -> (r: Result<U256, UniswapV3MathError>)
    ensures
        word_result(r) == amount0_for_liquidity(
            sqrt_ratio_a_x96.val(),
            sqrt_ratio_b_x96.val(),
            liquidity as nat,
        ),
{
    if sqrt_ratio_a_x96.is_zero() || sqrt_ratio_b_x96.is_zero() {
        return Err(UniswapV3MathError::SqrtPriceIsZero);
    }
    let diff = distance_word(sqrt_ratio_a_x96, sqrt_ratio_b_x96);
    proof {
        lemma_pow2_256();
        vstd::arithmetic::power2::lemma2_to64();
        vstd::arithmetic::power2::lemma_pow2_adds(64, 32);
        assert(liquidity * q96() < word_modulus()) by (nonlinear_arith)
            requires
                liquidity <= u128::MAX,
                q96() == 0x1_0000_0000_0000_0000_0000_0000nat,
                word_modulus() == 0x1_0000_0000_0000_0000_0000_0000_0000_0000_0000_0000_0000_0000_0000_0000_0000_0000nat,
        ;
        lemma_small_mod((liquidity * q96()) as nat, word_modulus());
    }
    let shifted = shl(U256::from_u128(liquidity), 96);
    match mul_div(shifted, diff, sqrt_ratio_b_x96) {
        Ok(numerator) => Ok(div(numerator, sqrt_ratio_a_x96)),
        Err(e) => Err(e),
    }
}

/// The amount of token1 that a liquidity is worth over a price range.
pub fn get_amount1_for_liquidity(
    sqrt_ratio_a_x96: U256,
    sqrt_ratio_b_x96: U256,
    liquidity: u128,
) -> (r: Result<U256, UniswapV3MathError>)
    ensures
        word_result(r) == amount1_for_liquidity(
            sqrt_ratio_a_x96.val(),
            sqrt_ratio_b_x96.val(),
            liquidity as nat,
        ),
{
    let diff = distance_word(sqrt_ratio_a_x96, sqrt_ratio_b_x96);
    mul_div(U256::from_u128(liquidity), diff, q96_word())
}

/// The values of a pair of words.
pub open spec fn pair_result(r: Result<(U256, U256), UniswapV3MathError>) -> Result<
    (nat, nat),
    UniswapV3MathError,
> {
    match r {
        Ok((x, y)) => Ok((x.val(), y.val())),
        Err(e) => Err(e),
    }
}

/// The amounts of token0 and token1 that a liquidity is worth, given the
/// current price and a price range.
pub fn get_amounts_for_liquidity(
    sqrt_ratio_x96: U256,
    sqrt_ratio_a_x96: U256,
    sqrt_ratio_b_x96: U256,
    liquidity: u128,
) -> (r: Result<(U256, U256), UniswapV3MathError>)
    ensures
        pair_result(r) == amounts_for_liquidity(
            sqrt_ratio_x96.val(),
            sqrt_ratio_a_x96.val(),
            sqrt_ratio_b_x96.val(),
            liquidity as nat,
        ),
{
    let (lower, upper) = if sqrt_ratio_a_x96.gt(&sqrt_ratio_b_x96) {
        (sqrt_ratio_b_x96, sqrt_ratio_a_x96)
    } else {
        (sqrt_ratio_a_x96, sqrt_ratio_b_x96)
    };
    if sqrt_ratio_x96.le(&lower) {
        match get_amount0_for_liquidity(lower, upper, liquidity) {
            Ok(x) => Ok((x, U256::zero())),
            Err(e) => Err(e),
        }
    } else if sqrt_ratio_x96.lt(&upper) {
        let amount0 = match get_amount0_for_liquidity(sqrt_ratio_x96, upper, liquidity) {
            Ok(x) => x,
            Err(e) => return Err(e),
        };
        let amount1 = match get_amount1_for_liquidity(lower, sqrt_ratio_x96, liquidity) {
            Ok(y) => y,
            Err(e) => return Err(e),
        };
        Ok((amount0, amount1))
    } else {
        match get_amount1_for_liquidity(lower, upper, liquidity) {
            Ok(y) => Ok((U256::zero(), y)),
            Err(e) => Err(e),
        }
    }
}

} // verus!
