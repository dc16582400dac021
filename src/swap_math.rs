//! One step of a swap within a single price range.
use vstd::prelude::*;
use vstd::arithmetic::div_mod::{
    lemma_small_mod, lemma_fundamental_div_mod, lemma_fundamental_div_mod_converse,
};
use crate::error::UniswapV3MathError;
use crate::full_math::{mul_div, mul_div_rounding_up, mul_div_result, mul_div_up_result};
use crate::sqrt_price_math::{
    amount_0_delta_of, amount_1_delta_of, amount_0_delta, amount_1_delta,
    get_next_sqrt_price_from_input, get_next_sqrt_price_from_output, next_price_from_input,
    next_price_from_output, lemma_token0_input_covers_move, lemma_token1_input_covers_move,
    lemma_div_up_bounds, lemma_mul_div_up_value, lemma_amount_0_up_monotone,
    lemma_amount_1_up_monotone, lemma_amount_0_direction, q96,
};
use crate::u256::{U256, I256, word_modulus, wrapping_sub, lemma_word_limbs};

verus! {

/// The fee denominator: fees are counted in millionths.
pub open spec fn fee_scale() -> nat {
    1_000_000
}

/// The amount that can go in, or come out, on the way to the target price.
pub open spec fn reachable_amount(
    current: nat,
    target: nat,
    liquidity: nat,
    exact_in: bool,
) -> Result<nat, UniswapV3MathError> {
    let zero_for_one = current > target;
    if exact_in {
        if zero_for_one {
            amount_0_delta(target, current, liquidity, true)
        } else {
            amount_1_delta(current, target, liquidity, true)
        }
    } else {
        if zero_for_one {
            amount_1_delta(target, current, liquidity, false)
        } else {
            amount_0_delta(current, target, liquidity, false)
        }
    }
}

/// The price the step ends at, with the reachable amount used to pick it.
pub open spec fn step_next_price(
    current: nat,
    target: nat,
    liquidity: nat,
    remaining: I256,
    fee_pips: nat,
) -> Result<(nat, nat), UniswapV3MathError> {
    let zero_for_one = current > target;
    if remaining.val() >= 0 {
        match mul_div_result(remaining.raw.val(), (fee_scale() - fee_pips) as nat, fee_scale()) {
            Err(e) => Err(e),
            Ok(less_fee) => match reachable_amount(current, target, liquidity, true) {
                Err(e) => Err(e),
                Ok(reach) => if less_fee >= reach {
                    Ok((target, reach))
                } else {
                    match next_price_from_input(current, liquidity, less_fee, zero_for_one) {
                        Err(e) => Err(e),
                        Ok(next) => Ok((next, reach)),
                    }
                },
            },
        }
    } else {
        let wanted = ((0 - remaining.raw.val()) % (word_modulus() as int)) as nat;
        match reachable_amount(current, target, liquidity, false) {
            Err(e) => Err(e),
            Ok(reach) => if wanted >= reach {
                Ok((target, reach))
            } else {
                match next_price_from_output(current, liquidity, wanted, zero_for_one) {
                    Err(e) => Err(e),
                    Ok(next) => Ok((next, reach)),
                }
            },
        }
    }
}

/// The amount in between the current and the next price.
pub open spec fn step_amount_in(current: nat, next: nat, liquidity: nat, zero_for_one: bool) -> Result<
    nat,
    UniswapV3MathError,
> {
    if zero_for_one {
        amount_0_delta(next, current, liquidity, true)
    } else {
        amount_1_delta(current, next, liquidity, true)
    }
}

/// The amount out between the current and the next price.
pub open spec fn step_amount_out(current: nat, next: nat, liquidity: nat, zero_for_one: bool) -> Result<
    nat,
    UniswapV3MathError,
> {
    if zero_for_one {
        amount_1_delta(next, current, liquidity, false)
    } else {
        amount_0_delta(current, next, liquidity, false)
    }
}

/// The fee taken on the step.
pub open spec fn step_fee(
    remaining: I256,
    target: nat,
    next: nat,
    amount_in: nat,
    fee_pips: nat,
) -> Result<nat, UniswapV3MathError> {
    if remaining.val() >= 0 && next != target {
        Ok(((remaining.raw.val() - amount_in) % (word_modulus() as int)) as nat)
    } else {
        mul_div_up_result(amount_in, fee_pips, (fee_scale() - fee_pips) as nat)
    }
}

/// The whole step: the next price, the amounts in and out, and the fee.
pub open spec fn swap_step(
    current: nat,
    target: nat,
    liquidity: nat,
    remaining: I256,
    fee_pips: nat,
) -> Result<(nat, nat, nat, nat), UniswapV3MathError> {
    let zero_for_one = current > target;
    let exact_in = remaining.val() >= 0;
    let wanted = ((0 - remaining.raw.val()) % (word_modulus() as int)) as nat;
    match step_next_price(current, target, liquidity, remaining, fee_pips) {
        Err(e) => Err(e),
        Ok((next, reach)) => {
            let max = target == next;
            let amount_in = if !max || !exact_in {
                step_amount_in(current, next, liquidity, zero_for_one)
            } else {
                Ok(reach)
            };
            match amount_in {
                Err(e) => Err(e),
                Ok(amount_in) => {
                    let amount_out = if !max || exact_in {
                        step_amount_out(current, next, liquidity, zero_for_one)
                    } else {
                        Ok(reach)
                    };
                    match amount_out {
                        Err(e) => Err(e),
                        Ok(amount_out) => {
                            let amount_out = if !exact_in && amount_out > wanted {
                                wanted
                            } else {
                                amount_out
                            };
                            match step_fee(remaining, target, next, amount_in, fee_pips) {
                                Err(e) => Err(e),
                                Ok(fee) => Ok((next, amount_in, amount_out, fee)),
                            }
                        },
                    }
                },
            }
        },
    }
}

/// When the remainder is the fee, input and fee add up to the amount
/// remaining, modulo 2^256, and exactly when the input does not exceed it.
proof fn lemma_fee_takes_the_rest(remaining: nat, amount_in: nat, fee: nat)
    requires
        remaining < word_modulus(),
        amount_in < word_modulus(),
        fee == (remaining - amount_in) % (word_modulus() as int),
    ensures
        (amount_in + fee) % word_modulus() == remaining,
        amount_in <= remaining ==> amount_in + fee == remaining,
{
    let m = word_modulus() as int;
    if amount_in <= remaining {
        lemma_small_mod((remaining - amount_in) as nat, m as nat);
        lemma_small_mod(remaining, m as nat);
    } else {
        lemma_fundamental_div_mod_converse(remaining - amount_in, m, -1, remaining - amount_in + m);
        lemma_fundamental_div_mod_converse((amount_in + fee) as int, m, 1, remaining as int);
    }
}

/// An exact-input step never spends more than what remains, fee included;
/// where it stops short of the target, input and fee are all of it.
pub proof fn lemma_exact_input_within_remaining(
    current: nat,
    target: nat,
    liquidity: nat,
    remaining: I256,
    fee_pips: nat,
)
    requires
        remaining.val() >= 0,
        fee_pips <= fee_scale(),
        swap_step(current, target, liquidity, remaining, fee_pips) is Ok,
    ensures
        ({
            let (next, amount_in, _, fee) = swap_step(
                current,
                target,
                liquidity,
                remaining,
                fee_pips,
            )->Ok_0;
            &&& amount_in + fee <= remaining.raw.val()
            &&& next != target ==> amount_in + fee == remaining.raw.val()
        }),
{
    let zero_for_one = current > target;
    let r = remaining.raw.val();
    let d = (fee_scale() - fee_pips) as nat;
    let less_fee = mul_div_result(r, d, fee_scale())->Ok_0;
    let reach = reachable_amount(current, target, liquidity, true)->Ok_0;
    let (next, amount_in, amount_out, fee) = swap_step(
        current,
        target,
        liquidity,
        remaining,
        fee_pips,
    )->Ok_0;
    // The input is at most what is left after the fee.
    if less_fee >= reach {
        assert(amount_in == reach);
    } else {
        assert(next_price_from_input(current, liquidity, less_fee, zero_for_one) is Ok);
        assert(step_amount_in(current, next, liquidity, zero_for_one) is Ok);
        assert(amount_in == step_amount_in(current, next, liquidity, zero_for_one)->Ok_0);
        if zero_for_one {
            lemma_token0_input_covers_move(current, liquidity, less_fee);
        } else {
            lemma_token1_input_covers_move(current, liquidity, less_fee);
        }
    }
    assert(amount_in <= less_fee);
    // What is left after the fee is at most what remains.
    vstd::arithmetic::div_mod::lemma_fundamental_div_mod((r * d) as int, fee_scale() as int);
    let rm = (r * d) % fee_scale();
    assert(less_fee * fee_scale() <= r * d) by (nonlinear_arith)
        requires
            r * d == fee_scale() * less_fee + rm,
            rm >= 0,
    ;
    assert(amount_in * fee_scale() <= r * d) by (nonlinear_arith)
        requires
            amount_in <= less_fee,
            less_fee * fee_scale() <= r * d,
    ;
    assert(amount_in <= r) by (nonlinear_arith)
        requires
            amount_in * fee_scale() <= r * d,
            d <= fee_scale(),
            fee_scale() > 0,
    ;
    lemma_word_limbs(remaining.raw);
    if next != target {
        lemma_fee_takes_the_rest(r, amount_in, fee);
    } else {
        assert(d > 0);
        lemma_mul_div_up_value(amount_in, fee_pips, d);
        lemma_div_up_bounds(amount_in * fee_pips, d, (r - amount_in) as nat);
        assert(amount_in * fee_pips <= (r - amount_in) * d) by (nonlinear_arith)
            requires
                amount_in * fee_scale() <= r * d,
                d + fee_pips == fee_scale(),
                amount_in <= r,
        ;
    }
}

/// A step never moves the price past its target: the next price lies
/// between the current price and the target.
pub proof fn lemma_step_stays_before_target(
    current: nat,
    target: nat,
    liquidity: nat,
    remaining: I256,
    fee_pips: nat,
)
    requires
        fee_pips <= fee_scale(),
        swap_step(current, target, liquidity, remaining, fee_pips) is Ok,
    ensures
        ({
            let next = swap_step(current, target, liquidity, remaining, fee_pips)->Ok_0.0;
            &&& current > target ==> target <= next <= current
            &&& current <= target ==> current <= next <= target
        }),
{
    let zero_for_one = current > target;
    let (next, reach) = step_next_price(current, target, liquidity, remaining, fee_pips)->Ok_0;
    let n = liquidity * q96();
    if next != target {
        if remaining.val() >= 0 {
            let r = remaining.raw.val();
            let d = (fee_scale() - fee_pips) as nat;
            let less_fee = mul_div_result(r, d, fee_scale())->Ok_0;
            assert(less_fee < reach);
            assert(step_amount_in(current, next, liquidity, zero_for_one) is Ok);
            if zero_for_one {
                lemma_token0_input_covers_move(current, liquidity, less_fee);
                if next < target {
                    lemma_amount_0_up_monotone(next, target, current, liquidity);
                }
            } else {
                lemma_token1_input_covers_move(current, liquidity, less_fee);
                if next > target {
                    lemma_amount_1_up_monotone(current, target, next, liquidity);
                }
            }
        } else {
            let wanted = ((0 - remaining.raw.val()) % (word_modulus() as int)) as nat;
            assert(wanted < reach);
            if zero_for_one {
                // token1 out: next = current - ⌈wanted * 2^96 / liquidity⌉
                let q = (current - next) as nat;
                lemma_mul_div_up_value(wanted, q96(), liquidity);
                if next < target {
                    lemma_div_up_bounds(wanted * q96(), liquidity, (current - target) as nat);
                    let qq = q96();
                    let x = liquidity * ((current - target) as nat);
                    assert(wanted * qq > x);
                    lemma_fundamental_div_mod(x as int, qq as int);
                    let fl = x / qq;
                    let rm = x % qq;
                    assert(fl < wanted) by (nonlinear_arith)
                        requires
                            x == qq * fl + rm,
                            rm >= 0,
                            wanted * qq > x,
                            qq > 0,
                    ;
                }
            } else {
                // token0 out: next = ⌈n * current / (n - wanted * current)⌉
                lemma_amount_0_direction(current, liquidity, wanted, false);
                if next > target {
                    let den = (n - wanted * current) as nat;
                    lemma_mul_div_up_value(n, current, den);
                    lemma_div_up_bounds(n * current, den, target);
                    assert(n * current > target * den);
                    let diff = (target - current) as nat;
                    let m = n * diff / target;
                    lemma_fundamental_div_mod((n * diff) as int, target as int);
                    lemma_fundamental_div_mod(m as int, current as int);
                    let m1 = n * diff % target;
                    let m2 = m % current;
                    let am = m / current;
                    assert(am >= wanted + 1);
                    assert(n * diff >= (wanted + 1) * current * target) by (nonlinear_arith)
                        requires
                            n * diff == target * m + m1,
                            m == current * am + m2,
                            m1 >= 0,
                            m2 >= 0,
                            am >= wanted + 1,
                            current > 0,
                            target > 0,
                    ;
                    assert(false) by (nonlinear_arith)
                        requires
                            n * diff >= (wanted + 1) * current * target,
                            n * current > target * den,
                            den == n - wanted * current,
                            diff == target - current,
                            current > 0,
                            target > current,
                    ;
                }
            }
        }
    }
}

/// The values of the four words of a step's result.
pub open spec fn step_result(r: Result<(U256, U256, U256, U256), UniswapV3MathError>) -> Result<
    (nat, nat, nat, nat),
    UniswapV3MathError,
> {
    match r {
        Ok((a, b, c, d)) => Ok((a.val(), b.val(), c.val(), d.val())),
        Err(e) => Err(e),
    }
}

/// Computes one step of a swap: how far the price moves toward the target,
/// what goes in and out, and the fee. A nonnegative `amount_remaining` is an
/// exact input, a negative one an exact output. The fee is in millionths and
/// at most one million.
pub fn compute_swap_step(
    sqrt_ratio_current_x_96: U256,
    sqrt_ratio_target_x_96: U256,
    liquidity: u128,
    amount_remaining: I256,
    fee_pips: u32,
) -> (r: Result<(U256, U256, U256, U256), UniswapV3MathError>)
    requires
        fee_pips <= 1_000_000,
    ensures
        step_result(r) == swap_step(
            sqrt_ratio_current_x_96.val(),
            sqrt_ratio_target_x_96.val(),
            liquidity as nat,
            amount_remaining,
            fee_pips as nat,
        ),
        // An exact input is never overspent, fee included; where the target
        // is not reached, input and fee are all of it.
        match r {
            Ok((next, amount_in, _, fee)) => amount_remaining.val() >= 0 ==> {
                &&& amount_in.val() + fee.val() <= amount_remaining.raw.val()
                &&& next.val() != sqrt_ratio_target_x_96.val() ==> amount_in.val() + fee.val()
                    == amount_remaining.raw.val()
            },
            Err(_) => true,
        },
        // The price moves from the current one toward the target and stops
        // there at the latest; an exact output is never exceeded and pays the
        // rounded-up fee on its input.
        match r {
            Ok((next, amount_in, amount_out, fee)) => {
                &&& amount_remaining.val() < 0 ==> mul_div_up_result(
                    amount_in.val(),
                    fee_pips as nat,
                    (fee_scale() - fee_pips) as nat,
                ) == Ok::<nat, UniswapV3MathError>(fee.val())
                &&& sqrt_ratio_current_x_96.val() > sqrt_ratio_target_x_96.val() ==> (
                sqrt_ratio_target_x_96.val() <= next.val() <= sqrt_ratio_current_x_96.val())
                &&& sqrt_ratio_current_x_96.val() <= sqrt_ratio_target_x_96.val() ==> (
                sqrt_ratio_current_x_96.val() <= next.val() <= sqrt_ratio_target_x_96.val())
                &&& amount_remaining.val() < 0 ==> amount_out.val() <= (0
                    - amount_remaining.raw.val()) % (word_modulus() as int)
            },
            Err(_) => true,
        },
{
    let current = sqrt_ratio_current_x_96;
    let target = sqrt_ratio_target_x_96;
    let zero_for_one = current.gt(&target);
    let exact_in = amount_remaining.is_nonnegative();
    let negative_amount_in_remaining = amount_remaining.wrapping_neg().into_raw();
    let sqrt_ratio_next_x_96;
    let mut amount_in = U256::zero();
    let mut amount_out = U256::zero();
    if exact_in {
        let amount_remaining_less_fee = match mul_div(
            amount_remaining.into_raw(),
            U256::from_u64((1_000_000 - fee_pips) as u64),
            U256::from_u64(1_000_000),
        ) {
            Ok(v) => v,
            Err(e) => return Err(e),
        };
        amount_in = match if zero_for_one {
            amount_0_delta_of(target, current, liquidity, true)
        } else {
            amount_1_delta_of(current, target, liquidity, true)
        } {
            Ok(v) => v,
            Err(e) => return Err(e),
        };
        if amount_remaining_less_fee.ge(&amount_in) {
            sqrt_ratio_next_x_96 = target;
        } else {
            sqrt_ratio_next_x_96 = match get_next_sqrt_price_from_input(
                current,
                liquidity,
                amount_remaining_less_fee,
                zero_for_one,
            ) {
                Ok(v) => v,
                Err(e) => return Err(e),
            };
        }
    } else {
        amount_out = match if zero_for_one {
            amount_1_delta_of(target, current, liquidity, false)
        } else {
            amount_0_delta_of(current, target, liquidity, false)
        } {
            Ok(v) => v,
            Err(e) => return Err(e),
        };
        if negative_amount_in_remaining.ge(&amount_out) {
            sqrt_ratio_next_x_96 = target;
        } else {
            sqrt_ratio_next_x_96 = match get_next_sqrt_price_from_output(
                current,
                liquidity,
                negative_amount_in_remaining,
                zero_for_one,
            ) {
                Ok(v) => v,
                Err(e) => return Err(e),
            };
        }
    }
    let next = sqrt_ratio_next_x_96;
    let max = target.eq(&next);
    if zero_for_one {
        if !max || !exact_in {
            amount_in = match amount_0_delta_of(next, current, liquidity, true) {
                Ok(v) => v,
                Err(e) => return Err(e),
            };
        }
        if !max || exact_in {
            amount_out = match amount_1_delta_of(next, current, liquidity, false) {
                Ok(v) => v,
                Err(e) => return Err(e),
            };
        }
    } else {
        if !max || !exact_in {
            amount_in = match amount_1_delta_of(current, next, liquidity, true) {
                Ok(v) => v,
                Err(e) => return Err(e),
            };
        }
        if !max || exact_in {
            amount_out = match amount_0_delta_of(current, next, liquidity, false) {
                Ok(v) => v,
                Err(e) => return Err(e),
            };
        }
    }
    if !exact_in && amount_out.gt(&negative_amount_in_remaining) {
        amount_out = negative_amount_in_remaining;
    }
    if exact_in && !next.eq(&target) {
        let fee_amount = wrapping_sub(amount_remaining.into_raw(), amount_in);
        proof {
            lemma_fee_takes_the_rest(amount_remaining.raw.val(), amount_in.val(), fee_amount.val());
        }
        proof {
            lemma_step_stays_before_target(
                current.val(),
                target.val(),
                liquidity as nat,
                amount_remaining,
                fee_pips as nat,
            );
            if exact_in {
                lemma_exact_input_within_remaining(
                    current.val(),
                    target.val(),
                    liquidity as nat,
                    amount_remaining,
                    fee_pips as nat,
                );
            }
        }
        Ok((next, amount_in, amount_out, fee_amount))
    } else {
        let fee_amount = match mul_div_rounding_up(
            amount_in,
            U256::from_u64(fee_pips as u64),
            U256::from_u64((1_000_000 - fee_pips) as u64),
        ) {
            Ok(v) => v,
            Err(e) => return Err(e),
        };
        proof {
            lemma_step_stays_before_target(
                current.val(),
                target.val(),
                liquidity as nat,
                amount_remaining,
                fee_pips as nat,
            );
            if exact_in {
                lemma_exact_input_within_remaining(
                    current.val(),
                    target.val(),
                    liquidity as nat,
                    amount_remaining,
                    fee_pips as nat,
                );
            }
        }
        Ok((next, amount_in, amount_out, fee_amount))
    }
}

} // verus!
