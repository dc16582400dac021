//! Moving a square-root price by token amounts, and the token amounts
//! between two square-root prices.
use vstd::prelude::*;
use vstd::arithmetic::div_mod::{
    lemma_fundamental_div_mod, lemma_fundamental_div_mod_converse, lemma_small_mod,
    lemma_div_multiples_vanish, lemma_div_is_ordered_by_denominator,
};
use crate::error::UniswapV3MathError;
use crate::full_math::{
    mul_div, mul_div_rounding_up, mul_div_result, mul_div_up_result, word_result,
};
use crate::u256::{
    U256, I256, word_modulus, wrapping_add, wrapping_sub, wrapping_mul, div, shl,
    lemma_word_limbs, lemma_pow2_256,
};
use crate::unsafe_math::{div_rounding_up, div_up};

pub use crate::tick_math::get_tick_at_sqrt_ratio;

verus! {

/// 2^96, the scale of a Q64.96 price.
pub open spec fn q96() -> nat {
    0x1_0000_0000_0000_0000_0000_0000
}

/// The largest 160-bit value.
pub open spec fn max_u160() -> nat {
    0xFFFF_FFFF_FFFF_FFFF_FFFF_FFFF_FFFF_FFFF_FFFF_FFFFnat
}

/// 2^96 as a word.
pub fn q96_word() -> (r: U256)
    ensures
        r.val() == q96(),
{
    U256 { limb0: 0, limb1: 0x1_0000_0000, limb2: 0, limb3: 0 }
}

/// 2^160 - 1 as a word.
pub fn max_u160_word() -> (r: U256)
    ensures
        r.val() == max_u160(),
{
    U256 { limb0: u64::MAX, limb1: u64::MAX, limb2: 0xFFFF_FFFF, limb3: 0 }
}

/// The price after adding or removing `amount` of token0, rounded up.
pub open spec fn next_price_from_amount_0(price: nat, liquidity: nat, amount: nat, add: bool) -> Result<
    nat,
    UniswapV3MathError,
> {
    let numerator = liquidity * q96();
    let product = amount * price;
    if amount == 0 {
        Ok(price)
    } else if add {
        if product < word_modulus() && numerator + product < word_modulus() {
            mul_div_up_result(numerator, price, numerator + product)
        } else {
            let denominator = numerator / price + amount;
            if denominator >= word_modulus() {
                Err(UniswapV3MathError::Overflow)
            } else {
                Ok(div_up(numerator, denominator))
            }
        }
    } else if product < word_modulus() && numerator > product {
        mul_div_up_result(numerator, price, (numerator - product) as nat)
    } else {
        Err(UniswapV3MathError::ProductDivAmount)
    }
}

/// The price after adding or removing `amount` of token1, rounded down.
pub open spec fn next_price_from_amount_1(price: nat, liquidity: nat, amount: nat, add: bool) -> Result<
    nat,
    UniswapV3MathError,
> {
    if add {
        match mul_div_result(amount, q96(), liquidity) {
            Err(e) => Err(e),
            Ok(quotient) => if price + quotient > max_u160() {
                Err(UniswapV3MathError::SafeCastToU160Overflow)
            } else {
                Ok(price + quotient)
            },
        }
    } else {
        match mul_div_up_result(amount, q96(), liquidity) {
            Err(e) => Err(e),
            Ok(quotient) => if price <= quotient {
                Err(UniswapV3MathError::SqrtPriceIsLteQuotient)
            } else {
                Ok((price - quotient) as nat)
            },
        }
    }
}

/// The price after `amount_in` is swapped in.
pub open spec fn next_price_from_input(price: nat, liquidity: nat, amount_in: nat, zero_for_one: bool) -> Result<
    nat,
    UniswapV3MathError,
> {
    if price == 0 {
        Err(UniswapV3MathError::SqrtPriceIsZero)
    } else if liquidity == 0 {
        Err(UniswapV3MathError::LiquidityIsZero)
    } else if zero_for_one {
        next_price_from_amount_0(price, liquidity, amount_in, true)
    } else {
        next_price_from_amount_1(price, liquidity, amount_in, true)
    }
}

/// The price after `amount_out` is swapped out.
pub open spec fn next_price_from_output(price: nat, liquidity: nat, amount_out: nat, zero_for_one: bool) -> Result<
    nat,
    UniswapV3MathError,
> {
    if price == 0 {
        Err(UniswapV3MathError::SqrtPriceIsZero)
    } else if liquidity == 0 {
        Err(UniswapV3MathError::LiquidityIsZero)
    } else if zero_for_one {
        next_price_from_amount_1(price, liquidity, amount_out, false)
    } else {
        next_price_from_amount_0(price, liquidity, amount_out, false)
    }
}

/// The amount of token0 between two prices, in either order.
pub open spec fn amount_0_delta(a: nat, b: nat, liquidity: nat, round_up: bool) -> Result<
    nat,
    UniswapV3MathError,
> {
    let lower = if a > b { b } else { a };
    let upper = if a > b { a } else { b };
    if lower == 0 {
        Err(UniswapV3MathError::SqrtPriceIsZero)
    } else if round_up {
        match mul_div_up_result(liquidity * q96(), (upper - lower) as nat, upper) {
            Err(e) => Err(e),
            Ok(n) => Ok(div_up(n, lower)),
        }
    } else {
        match mul_div_result(liquidity * q96(), (upper - lower) as nat, upper) {
            Err(e) => Err(e),
            Ok(n) => Ok(n / lower),
        }
    }
}

/// The amount of token1 between two prices, in either order.
pub open spec fn amount_1_delta(a: nat, b: nat, liquidity: nat, round_up: bool) -> Result<
    nat,
    UniswapV3MathError,
> {
    let lower = if a > b { b } else { a };
    let upper = if a > b { a } else { b };
    if round_up {
        mul_div_up_result(liquidity, (upper - lower) as nat, q96())
    } else {
        mul_div_result(liquidity, (upper - lower) as nat, q96())
    }
}

/// A signed amount: the unsigned one flowing in, or its negation, as a
/// two's-complement word.
pub open spec fn signed_amount(r: Result<nat, UniswapV3MathError>, negate: bool) -> Result<
    nat,
    UniswapV3MathError,
> {
    match r {
        Err(e) => Err(e),
        Ok(v) => if negate {
            Ok(((0 - v) % (word_modulus() as int)) as nat)
        } else {
            Ok(v)
        },
    }
}

/// The raw word a signed result stands for.
pub open spec fn signed_result(r: Result<I256, UniswapV3MathError>) -> Result<nat, UniswapV3MathError> {
    match r {
        Ok(w) => Ok(w.raw.val()),
        Err(e) => Err(e),
    }
}

/// A wrapped product divided back by one factor gives the other factor
/// exactly when the product did not wrap.
proof fn lemma_product_check(amount: nat, price: nat, product: nat)
    requires
        amount > 0,
        product == (amount * price) % word_modulus(),
    ensures
        (product / amount == price) == (amount * price < word_modulus()),
{
    let m = word_modulus();
    if amount * price < m {
        lemma_small_mod(amount * price, m);
        lemma_div_multiples_vanish(price as int, amount as int);
    } else {
        lemma_fundamental_div_mod((amount * price) as int, m as int);
        lemma_fundamental_div_mod(product as int, amount as int);
        assert(product < amount * price) by (nonlinear_arith)
            requires
                amount * price == m * ((amount * price) / m) + product,
                amount * price >= m,
                product < m,
                m > 0,
        ;
        if product / amount == price {
            assert(product >= amount * price) by (nonlinear_arith)
                requires
                    product == amount * (product / amount) + product % amount,
                    product / amount == price,
                    product % amount >= 0,
            ;
        }
    }
}

/// A rounded-up quotient is at most `c` when the dividend is at most
/// `c * d`, and at least `c` when the dividend is at least `c * d`.
pub proof fn lemma_div_up_bounds(x: nat, d: nat, c: nat)
    requires
        d > 0,
    ensures
        x <= c * d ==> div_up(x, d) <= c,
        x >= c * d ==> div_up(x, d) >= c,
{
    lemma_fundamental_div_mod(x as int, d as int);
    let q = x / d;
    if x <= c * d {
        assert(q <= c) by (nonlinear_arith)
            requires
                x == d * q + x % d,
                x % d >= 0,
                x <= c * d,
                d > 0,
        ;
        if q == c {
            assert(x % d == 0) by (nonlinear_arith)
                requires
                    x == d * q + x % d,
                    x <= c * d,
                    q == c,
                    x % d >= 0,
            ;
        }
    }
    if x >= c * d {
        assert(q >= c) by (nonlinear_arith)
            requires
                x == d * q + x % d,
                x % d < d,
                x >= c * d,
                d > 0,
        ;
    }
}

/// A rounded-up multiply-divide that succeeds gives the rounded-up quotient.
pub proof fn lemma_mul_div_up_value(a: nat, b: nat, d: nat)
    requires
        mul_div_up_result(a, b, d) is Ok,
    ensures
        d > 0,
        mul_div_up_result(a, b, d)->Ok_0 == div_up(a * b, d),
{
}

/// Moving the price by token0 lowers it when token0 is added and raises it
/// when token0 is removed.
pub proof fn lemma_amount_0_direction(price: nat, liquidity: nat, amount: nat, add: bool)
    requires
        price > 0,
        next_price_from_amount_0(price, liquidity, amount, add) is Ok,
    ensures
        add ==> next_price_from_amount_0(price, liquidity, amount, add)->Ok_0 <= price,
        !add ==> next_price_from_amount_0(price, liquidity, amount, add)->Ok_0 >= price,
{
    let numerator = liquidity * q96();
    let product = amount * price;
    if amount != 0 {
        assert(product > 0) by (nonlinear_arith)
            requires
                amount > 0,
                price > 0,
                product == amount * price,
        ;
        if add {
            if product < word_modulus() && numerator + product < word_modulus() {
                lemma_mul_div_up_value(numerator, price, numerator + product);
                assert(numerator * price <= price * (numerator + product)) by (nonlinear_arith)
                    requires
                        product > 0,
                ;
                lemma_div_up_bounds(numerator * price, numerator + product, price);
            } else {
                let denominator = numerator / price + amount;
                lemma_fundamental_div_mod(numerator as int, price as int);
                let q = numerator / price;
                let rr = numerator % price;
                assert(numerator <= price * denominator) by (nonlinear_arith)
                    requires
                        numerator == price * q + rr,
                        rr < price,
                        denominator == q + amount,
                        amount >= 1,
                ;
                lemma_div_up_bounds(numerator, denominator, price);
            }
        } else {
            lemma_mul_div_up_value(numerator, price, (numerator - product) as nat);
            assert(numerator * price >= price * (numerator - product)) by (nonlinear_arith)
                requires
                    product > 0,
                    numerator > product,
            ;
            lemma_div_up_bounds(numerator * price, (numerator - product) as nat, price);
        }
    }
}

/// A rounded-up quotient times the divisor covers the dividend.
proof fn lemma_div_up_covers(x: nat, d: nat)
    requires
        d > 0,
    ensures
        d * div_up(x, d) >= x,
{
    lemma_fundamental_div_mod(x as int, d as int);
    let q = x / d;
    let rm = x % d;
    assert(d * (q + if rm == 0 { 0nat } else { 1nat }) >= x) by (nonlinear_arith)
        requires
            x == d * q + rm,
            0 <= rm < d,
    ;
}

/// Swapping in `amount` of token1 moves the price no further than that
/// amount pays for: the input recomputed between the two prices is at most
/// `amount`.
pub proof fn lemma_token1_input_covers_move(price: nat, liquidity: nat, amount: nat)
    requires
        next_price_from_amount_1(price, liquidity, amount, true) is Ok,
        ({
            let next = next_price_from_amount_1(price, liquidity, amount, true)->Ok_0;
            amount_1_delta(price, next, liquidity, true) is Ok
        }),
    ensures
        ({
            let next = next_price_from_amount_1(price, liquidity, amount, true)->Ok_0;
            &&& next >= price
            &&& amount_1_delta(price, next, liquidity, true)->Ok_0 <= amount
        }),
{
    let next = next_price_from_amount_1(price, liquidity, amount, true)->Ok_0;
    let q = (next - price) as nat;
    assert(liquidity > 0);
    lemma_fundamental_div_mod((amount * q96()) as int, liquidity as int);
    assert(q == amount * q96() / liquidity);
    let rm = (amount * q96()) % liquidity;
    assert(liquidity * q <= amount * q96()) by (nonlinear_arith)
        requires
            amount * q96() == liquidity * q + rm,
            rm >= 0,
    ;
    lemma_mul_div_up_value(liquidity, q, q96());
    lemma_div_up_bounds(liquidity * q, q96(), amount);
}

/// Swapping in `amount` of token0 moves the price no further than that
/// amount pays for: the input recomputed between the two prices is at most
/// `amount`.
pub proof fn lemma_token0_input_covers_move(price: nat, liquidity: nat, amount: nat)
    requires
        price > 0,
        next_price_from_amount_0(price, liquidity, amount, true) is Ok,
        ({
            let next = next_price_from_amount_0(price, liquidity, amount, true)->Ok_0;
            amount_0_delta(next, price, liquidity, true) is Ok
        }),
    ensures
        ({
            let next = next_price_from_amount_0(price, liquidity, amount, true)->Ok_0;
            &&& next <= price
            &&& amount_0_delta(next, price, liquidity, true)->Ok_0 <= amount
        }),
{
    let n = liquidity * q96();
    let next = next_price_from_amount_0(price, liquidity, amount, true)->Ok_0;
    lemma_amount_0_direction(price, liquidity, amount, true);
    let product = amount * price;
    // The key fact: n * price <= next * (n + amount * price).
    if amount == 0 {
        assert(n * price <= next * (n + amount * price)) by (nonlinear_arith)
            requires
                next == price,
                amount == 0,
        ;
    } else if product < word_modulus() && n + product < word_modulus() {
        lemma_mul_div_up_value(n, price, n + product);
        lemma_div_up_covers(n * price, n + product);
        assert(n * price <= next * (n + amount * price)) by (nonlinear_arith)
            requires
                (n + product) * next >= n * price,
                product == amount * price,
        ;
    } else {
        let fl = n / price;
        let d = fl + amount;
        assert(d > 0);
        lemma_div_up_covers(n, d);
        lemma_fundamental_div_mod(n as int, price as int);
        let rm = n % price;
        assert(n * price <= next * (n + amount * price)) by (nonlinear_arith)
            requires
                d * next >= n,
                n == price * fl + rm,
                rm >= 0,
                d == fl + amount,
                price > 0,
                next >= 0,
        ;
    }
    // next > 0, since the recomputed amount exists
    assert(next > 0);
    let diff = (price - next) as nat;
    lemma_mul_div_up_value(n, diff, price);
    let m = div_up(n * diff, price);
    assert(n * diff <= (amount * next) * price) by (nonlinear_arith)
        requires
            n * price <= next * (n + amount * price),
            diff == price - next,
            next <= price,
    ;
    lemma_div_up_bounds(n * diff, price, amount * next);
    assert(m <= amount * next);
    lemma_div_up_bounds(m, next, amount);
}

/// A rounded-up quotient grows with the dividend and shrinks with the
/// divisor.
pub proof fn lemma_div_up_monotone(x1: nat, d1: nat, x2: nat, d2: nat)
    requires
        0 < d1 <= d2,
        x1 >= x2,
    ensures
        div_up(x1, d1) >= div_up(x2, d2),
{
    let v2 = div_up(x2, d2);
    if v2 > 0 {
        lemma_fundamental_div_mod(x2 as int, d2 as int);
        let q2 = x2 / d2;
        let r2 = x2 % d2;
        assert(x2 > (v2 - 1) * d2) by (nonlinear_arith)
            requires
                x2 == d2 * q2 + r2,
                0 <= r2 < d2,
                v2 == q2 + if r2 == 0 { 0nat } else { 1nat },
                v2 > 0,
        ;
        assert(x1 > (v2 - 1) * d1) by (nonlinear_arith)
            requires
                x1 >= x2,
                x2 > (v2 - 1) * d2,
                d1 <= d2,
                v2 >= 1,
        ;
        lemma_fundamental_div_mod(x1 as int, d1 as int);
        let q1 = x1 / d1;
        let r1 = x1 % d1;
        assert(q1 + (if r1 == 0 { 0nat } else { 1nat }) >= v2) by (nonlinear_arith)
            requires
                x1 == d1 * q1 + r1,
                0 <= r1 < d1,
                x1 > (v2 - 1) * d1,
                d1 > 0,
        ;
    }
}

/// The rounded-up token0 amount grows as the lower price falls.
pub proof fn lemma_amount_0_up_monotone(l1: nat, l2: nat, u: nat, liquidity: nat)
    requires
        0 < l1 <= l2 <= u,
        amount_0_delta(l1, u, liquidity, true) is Ok,
        amount_0_delta(l2, u, liquidity, true) is Ok,
    ensures
        amount_0_delta(l1, u, liquidity, true)->Ok_0 >= amount_0_delta(l2, u, liquidity, true)->Ok_0,
{
    let n = liquidity * q96();
    lemma_mul_div_up_value(n, (u - l1) as nat, u);
    lemma_mul_div_up_value(n, (u - l2) as nat, u);
    assert(n * ((u - l1) as nat) >= n * ((u - l2) as nat)) by (nonlinear_arith)
        requires
            l1 <= l2 <= u,
    ;
    lemma_div_up_monotone(n * ((u - l1) as nat), u, n * ((u - l2) as nat), u);
    lemma_div_up_monotone(
        div_up(n * ((u - l1) as nat), u),
        l1,
        div_up(n * ((u - l2) as nat), u),
        l2,
    );
}

/// The rounded-up token1 amount grows as the upper price rises.
pub proof fn lemma_amount_1_up_monotone(l: nat, u1: nat, u2: nat, liquidity: nat)
    requires
        l <= u1 <= u2,
        amount_1_delta(l, u1, liquidity, true) is Ok,
        amount_1_delta(l, u2, liquidity, true) is Ok,
    ensures
        amount_1_delta(l, u1, liquidity, true)->Ok_0 <= amount_1_delta(l, u2, liquidity, true)->Ok_0,
{
    lemma_mul_div_up_value(liquidity, (u1 - l) as nat, q96());
    lemma_mul_div_up_value(liquidity, (u2 - l) as nat, q96());
    assert(liquidity * ((u2 - l) as nat) >= liquidity * ((u1 - l) as nat)) by (nonlinear_arith)
        requires
            l <= u1 <= u2,
    ;
    lemma_div_up_monotone(liquidity * ((u2 - l) as nat), q96(), liquidity * ((u1 - l) as nat), q96());
}

/// The price after adding or removing `amount` of token0, rounded up so
/// that the pool keeps enough of token0. Where the product overflows, the
/// fallback `⌈liquidity * 2^96 / (liquidity * 2^96 / price + amount)⌉` is
/// used; it fails with `Overflow` when that denominator passes 2^256.
pub fn get_next_sqrt_price_from_amount_0_rounding_up(
    sqrt_price_x_96: U256,
    liquidity: u128,
    amount: U256,
    add: bool,
) -> (r: Result<U256, UniswapV3MathError>)
    ensures
        word_result(r) == next_price_from_amount_0(
            sqrt_price_x_96.val(),
            liquidity as nat,
            amount.val(),
            add,
        ),
{
    if amount.is_zero() {
        return Ok(sqrt_price_x_96);
    }
    let numerator_1 = shl(U256::from_u128(liquidity), 96);
    proof {
        lemma_pow2_256();
        vstd::arithmetic::power2::lemma2_to64();
        vstd::arithmetic::power2::lemma_pow2_adds(64, 32);
        assert(liquidity * q96() < word_modulus()) by (nonlinear_arith)
            requires
                liquidity <= u128::MAX,
                q96() == 0x1_0000_0000_0000_0000_0000_0000nat,
                word_modulus() == 0x1_0000_0000_0000_0000_0000_0000_0000_0000_0000_0000_0000_0000_0000_0000_0000_0000nat,
        ;
        lemma_small_mod((liquidity * q96()) as nat, word_modulus());
    }
    let product = wrapping_mul(amount, sqrt_price_x_96);
    proof {
        lemma_word_limbs(amount);
        lemma_product_check(amount.val(), sqrt_price_x_96.val(), product.val());
    }
    if add {
        if div(product, amount).eq(&sqrt_price_x_96) {
            let denominator = wrapping_add(numerator_1, product);
            proof {
                lemma_small_mod(amount.val() * sqrt_price_x_96.val(), word_modulus());
                if numerator_1.val() + product.val() >= word_modulus() {
                    lemma_fundamental_div_mod_converse(
                        (numerator_1.val() + product.val()) as int,
                        word_modulus() as int,
                        1,
                        numerator_1.val() + product.val() - word_modulus(),
                    );
                } else {
                    lemma_small_mod((numerator_1.val() + product.val()) as nat, word_modulus());
                }
            }
            if denominator.ge(&numerator_1) {
                return mul_div_rounding_up(numerator_1, sqrt_price_x_96, denominator);
            }
        }
        proof {
            lemma_word_limbs(sqrt_price_x_96);
        }
        let denominator = wrapping_add(div(numerator_1, sqrt_price_x_96), amount);
        proof {
            let sum = numerator_1.val() / sqrt_price_x_96.val() + amount.val();
            if sum >= word_modulus() {
                lemma_fundamental_div_mod_converse(
                    sum as int,
                    word_modulus() as int,
                    1,
                    sum - word_modulus(),
                );
            } else {
                lemma_small_mod(sum as nat, word_modulus());
            }
        }
        if denominator.lt(&amount) {
            Err(UniswapV3MathError::Overflow)
        } else {
            Ok(div_rounding_up(numerator_1, denominator))
        }
    } else {
        if div(product, amount).eq(&sqrt_price_x_96) && numerator_1.gt(&product) {
            proof {
                lemma_small_mod(amount.val() * sqrt_price_x_96.val(), word_modulus());
                lemma_small_mod((numerator_1.val() - product.val()) as nat, word_modulus());
            }
            let denominator = wrapping_sub(numerator_1, product);
            mul_div_rounding_up(numerator_1, sqrt_price_x_96, denominator)
        } else {
            proof {
                if amount.val() * sqrt_price_x_96.val() < word_modulus() {
                    lemma_small_mod(amount.val() * sqrt_price_x_96.val(), word_modulus());
                }
            }
            Err(UniswapV3MathError::ProductDivAmount)
        }
    }
}

/// 2^96 times an amount below 2^160 is a word; no rounding is lost there.
proof fn lemma_shifted_amount(amount: nat, liquidity: nat)
    requires
        amount <= max_u160(),
        liquidity > 0,
    ensures
        amount * q96() < word_modulus(),
        (amount * q96()) % word_modulus() == amount * q96(),
        mul_div_result(amount, q96(), liquidity) == Ok::<nat, UniswapV3MathError>(
            amount * q96() / liquidity,
        ),
        mul_div_up_result(amount, q96(), liquidity) == Ok::<nat, UniswapV3MathError>(
            div_up(amount * q96(), liquidity),
        ),
{
    let m = word_modulus();
    assert(amount * q96() <= m - q96()) by (nonlinear_arith)
        requires
            amount <= max_u160(),
            q96() == 0x1_0000_0000_0000_0000_0000_0000nat,
            max_u160() == 0xFFFF_FFFF_FFFF_FFFF_FFFF_FFFF_FFFF_FFFF_FFFF_FFFFnat,
            m == 0x1_0000_0000_0000_0000_0000_0000_0000_0000_0000_0000_0000_0000_0000_0000_0000_0000nat,
    ;
    lemma_small_mod(amount * q96(), m);
    lemma_div_is_ordered_by_denominator((amount * q96()) as int, 1, liquidity as int);
}

/// The price after adding or removing `amount` of token1, rounded down so
/// that the pool keeps enough of token1.
pub fn get_next_sqrt_price_from_amount_1_rounding_down(
    sqrt_price_x_96: U256,
    liquidity: u128,
    amount: U256,
    add: bool,
) -> (r: Result<U256, UniswapV3MathError>)
    requires
        liquidity > 0,
    ensures
        word_result(r) == next_price_from_amount_1(
            sqrt_price_x_96.val(),
            liquidity as nat,
            amount.val(),
            add,
        ),
{
    proof {
        lemma_pow2_256();
        vstd::arithmetic::power2::lemma2_to64();
        vstd::arithmetic::power2::lemma_pow2_adds(64, 32);
        lemma_word_limbs(sqrt_price_x_96);
    }
    let liquidity_word = U256::from_u128(liquidity);
    if add {
        let quotient = if amount.le(&max_u160_word()) {
            proof {
                lemma_shifted_amount(amount.val(), liquidity as nat);
            }
            div(shl(amount, 96), liquidity_word)
        } else {
            match mul_div(amount, q96_word(), liquidity_word) {
                Ok(q) => q,
                Err(e) => return Err(e),
            }
        };
        // A sum past 2^256 is past the 160-bit ceiling too.
        let max_price = max_u160_word();
        if quotient.gt(&max_price) || sqrt_price_x_96.gt(&wrapping_sub(max_price, quotient)) {
            proof {
                if quotient.val() <= max_u160() {
                    lemma_small_mod((max_u160() - quotient.val()) as nat, word_modulus());
                }
            }
            Err(UniswapV3MathError::SafeCastToU160Overflow)
        } else {
            proof {
                lemma_small_mod((max_u160() - quotient.val()) as nat, word_modulus());
                lemma_small_mod(sqrt_price_x_96.val() + quotient.val(), word_modulus());
            }
            Ok(wrapping_add(sqrt_price_x_96, quotient))
        }
    } else {
        let quotient = if amount.le(&max_u160_word()) {
            proof {
                lemma_shifted_amount(amount.val(), liquidity as nat);
            }
            div_rounding_up(shl(amount, 96), liquidity_word)
        } else {
            match mul_div_rounding_up(amount, q96_word(), liquidity_word) {
                Ok(q) => q,
                Err(e) => return Err(e),
            }
        };
        if sqrt_price_x_96.le(&quotient) {
            return Err(UniswapV3MathError::SqrtPriceIsLteQuotient);
        }
        proof {
            lemma_small_mod((sqrt_price_x_96.val() - quotient.val()) as nat, word_modulus());
        }
        Ok(wrapping_sub(sqrt_price_x_96, quotient))
    }
}

/// The price after `amount_in` of one token is swapped into the pool.
pub fn get_next_sqrt_price_from_input(
    sqrt_price: U256,
    liquidity: u128,
    amount_in: U256,
    zero_for_one: bool,
) -> (r: Result<U256, UniswapV3MathError>)
    ensures
        word_result(r) == next_price_from_input(
            sqrt_price.val(),
            liquidity as nat,
            amount_in.val(),
            zero_for_one,
        ),
        // Token0 in lowers the price, token1 in raises it.
        r matches Ok(p) ==> (zero_for_one ==> p.val() <= sqrt_price.val()) && (!zero_for_one
            ==> p.val() >= sqrt_price.val()),
{
    if sqrt_price.is_zero() {
        return Err(UniswapV3MathError::SqrtPriceIsZero);
    } else if liquidity == 0 {
        return Err(UniswapV3MathError::LiquidityIsZero);
    }
    if zero_for_one {
        let r = get_next_sqrt_price_from_amount_0_rounding_up(sqrt_price, liquidity, amount_in, true);
        proof {
            if r is Ok {
                lemma_amount_0_direction(sqrt_price.val(), liquidity as nat, amount_in.val(), true);
            }
        }
        r
    } else {
        get_next_sqrt_price_from_amount_1_rounding_down(sqrt_price, liquidity, amount_in, true)
    }
}

/// The price after `amount_out` of one token is swapped out of the pool.
pub fn get_next_sqrt_price_from_output(
    sqrt_price: U256,
    liquidity: u128,
    amount_out: U256,
    zero_for_one: bool,
) -> (r: Result<U256, UniswapV3MathError>)
    ensures
        word_result(r) == next_price_from_output(
            sqrt_price.val(),
            liquidity as nat,
            amount_out.val(),
            zero_for_one,
        ),
        // Token1 out lowers the price, token0 out raises it.
        r matches Ok(p) ==> (zero_for_one ==> p.val() <= sqrt_price.val()) && (!zero_for_one
            ==> p.val() >= sqrt_price.val()),
{
    if sqrt_price.is_zero() {
        return Err(UniswapV3MathError::SqrtPriceIsZero);
    } else if liquidity == 0 {
        return Err(UniswapV3MathError::LiquidityIsZero);
    }
    if zero_for_one {
        get_next_sqrt_price_from_amount_1_rounding_down(sqrt_price, liquidity, amount_out, false)
    } else {
        let r = get_next_sqrt_price_from_amount_0_rounding_up(sqrt_price, liquidity, amount_out, false);
        proof {
            if r is Ok {
                lemma_amount_0_direction(sqrt_price.val(), liquidity as nat, amount_out.val(), false);
            }
        }
        r
    }
}

/// The amount of token0 between two prices for an unsigned liquidity,
/// rounded up or down.
pub(crate) fn amount_0_delta_of(
    sqrt_ratio_a_x_96: U256,
    sqrt_ratio_b_x_96: U256,
    liquidity: u128,
    round_up: bool,
) -> (r: Result<U256, UniswapV3MathError>)
    ensures
        word_result(r) == amount_0_delta(
            sqrt_ratio_a_x_96.val(),
            sqrt_ratio_b_x_96.val(),
            liquidity as nat,
            round_up,
        ),
{
    let (lower, upper) = if sqrt_ratio_a_x_96.gt(&sqrt_ratio_b_x_96) {
        (sqrt_ratio_b_x_96, sqrt_ratio_a_x_96)
    } else {
        (sqrt_ratio_a_x_96, sqrt_ratio_b_x_96)
    };
    proof {
        lemma_pow2_256();
        vstd::arithmetic::power2::lemma2_to64();
        vstd::arithmetic::power2::lemma_pow2_adds(64, 32);
        assert(liquidity * q96() < word_modulus()) by (nonlinear_arith)
            requires
                liquidity <= u128::MAX,
                q96() == 0x1_0000_0000_0000_0000_0000_0000nat,
                word_modulus() == 0x1_0000_0000_0000_0000_0000_0000_0000_0000_0000_0000_0000_0000_0000_0000_0000_0000nat,
        ;
        lemma_small_mod((liquidity * q96()) as nat, word_modulus());
        lemma_small_mod((upper.val() - lower.val()) as nat, word_modulus());
    }
    let numerator_1 = shl(U256::from_u128(liquidity), 96);
    let numerator_2 = wrapping_sub(upper, lower);
    if lower.is_zero() {
        return Err(UniswapV3MathError::SqrtPriceIsZero);
    }
    if round_up {
        let numerator_partial = match mul_div_rounding_up(numerator_1, numerator_2, upper) {
            Ok(n) => n,
            Err(e) => return Err(e),
        };
        Ok(div_rounding_up(numerator_partial, lower))
    } else {
        match mul_div(numerator_1, numerator_2, upper) {
            Ok(n) => Ok(div(n, lower)),
            Err(e) => Err(e),
        }
    }
}

/// The amount of token0 between two prices for a liquidity, rounded up or
/// down.
pub fn _get_amount_0_delta(
    sqrt_ratio_a_x_96: U256,
    sqrt_ratio_b_x_96: U256,
    liquidity: i128,
    round_up: bool,
) -> (r: Result<U256, UniswapV3MathError>)
    requires
        liquidity >= 0,
    ensures
        word_result(r) == amount_0_delta(
            sqrt_ratio_a_x_96.val(),
            sqrt_ratio_b_x_96.val(),
            liquidity as nat,
            round_up,
        ),
{
    amount_0_delta_of(sqrt_ratio_a_x_96, sqrt_ratio_b_x_96, liquidity as u128, round_up)
}

/// The amount of token1 between two prices for an unsigned liquidity,
/// rounded up or down.
pub(crate) fn amount_1_delta_of(
    sqrt_ratio_a_x_96: U256,
    sqrt_ratio_b_x_96: U256,
    liquidity: u128,
    round_up: bool,
) -> (r: Result<U256, UniswapV3MathError>)
    ensures
        word_result(r) == amount_1_delta(
            sqrt_ratio_a_x_96.val(),
            sqrt_ratio_b_x_96.val(),
            liquidity as nat,
            round_up,
        ),
{
    let (lower, upper) = if sqrt_ratio_a_x_96.gt(&sqrt_ratio_b_x_96) {
        (sqrt_ratio_b_x_96, sqrt_ratio_a_x_96)
    } else {
        (sqrt_ratio_a_x_96, sqrt_ratio_b_x_96)
    };
    proof {
        lemma_small_mod((upper.val() - lower.val()) as nat, word_modulus());
    }
    let difference = wrapping_sub(upper, lower);
    let liquidity_word = U256::from_u128(liquidity);
    if round_up {
        mul_div_rounding_up(liquidity_word, difference, q96_word())
    } else {
        mul_div(liquidity_word, difference, q96_word())
    }
}

/// The amount of token1 between two prices for a liquidity, rounded up or
/// down.
pub fn _get_amount_1_delta(
    sqrt_ratio_a_x_96: U256,
    sqrt_ratio_b_x_96: U256,
    liquidity: i128,
    round_up: bool,
) -> (r: Result<U256, UniswapV3MathError>)
    requires
        liquidity >= 0,
    ensures
        word_result(r) == amount_1_delta(
            sqrt_ratio_a_x_96.val(),
            sqrt_ratio_b_x_96.val(),
            liquidity as nat,
            round_up,
        ),
{
    amount_1_delta_of(sqrt_ratio_a_x_96, sqrt_ratio_b_x_96, liquidity as u128, round_up)
}

/// The signed amount of token0 for a change of liquidity between two
/// prices: positive flows into the pool, rounded up; negative flows out,
/// rounded down.
pub fn get_amount_0_delta(
    sqrt_ratio_a_x_96: U256,
    sqrt_ratio_b_x_96: U256,
    liquidity: i128,
) -> (r: Result<I256, UniswapV3MathError>)
    requires
        liquidity > i128::MIN,
    ensures
        liquidity < 0 ==> signed_result(r) == signed_amount(
            amount_0_delta(sqrt_ratio_b_x_96.val(), sqrt_ratio_a_x_96.val(), (-liquidity) as nat, false),
            true,
        ),
        liquidity >= 0 ==> signed_result(r) == amount_0_delta(
            sqrt_ratio_a_x_96.val(),
            sqrt_ratio_b_x_96.val(),
            liquidity as nat,
            true,
        ),
{
    if liquidity < 0 {
        match _get_amount_0_delta(sqrt_ratio_b_x_96, sqrt_ratio_a_x_96, -liquidity, false) {
            Ok(v) => Ok(I256::from_raw(v).wrapping_neg()),
            Err(e) => Err(e),
        }
    } else {
        match _get_amount_0_delta(sqrt_ratio_a_x_96, sqrt_ratio_b_x_96, liquidity, true) {
            Ok(v) => Ok(I256::from_raw(v)),
            Err(e) => Err(e),
        }
    }
}

/// The signed amount of token1 for a change of liquidity between two
/// prices: positive flows into the pool, rounded up; negative flows out,
/// rounded down.
pub fn get_amount_1_delta(
    sqrt_ratio_a_x_96: U256,
    sqrt_ratio_b_x_96: U256,
    liquidity: i128,
) -> (r: Result<I256, UniswapV3MathError>)
    requires
        liquidity > i128::MIN,
    ensures
        liquidity < 0 ==> signed_result(r) == signed_amount(
            amount_1_delta(sqrt_ratio_b_x_96.val(), sqrt_ratio_a_x_96.val(), (-liquidity) as nat, false),
            true,
        ),
        liquidity >= 0 ==> signed_result(r) == amount_1_delta(
            sqrt_ratio_a_x_96.val(),
            sqrt_ratio_b_x_96.val(),
            liquidity as nat,
            true,
        ),
{
    if liquidity < 0 {
        match _get_amount_1_delta(sqrt_ratio_b_x_96, sqrt_ratio_a_x_96, -liquidity, false) {
            Ok(v) => Ok(I256::from_raw(v).wrapping_neg()),
            Err(e) => Err(e),
        }
    } else {
        match _get_amount_1_delta(sqrt_ratio_a_x_96, sqrt_ratio_b_x_96, liquidity, true) {
            Ok(v) => Ok(I256::from_raw(v)),
            Err(e) => Err(e),
        }
    }
}

} // verus!
