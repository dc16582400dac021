use uniswap_v3_math::liquidity_math::{
    add_delta, get_amount0_for_liquidity, get_amounts_for_liquidity, get_liquidity_for_amount1,
    get_liquidity_for_amounts,
};
use uniswap_v3_math::tick_math::get_sqrt_ratio_at_tick;
use uniswap_v3_math::u256::U256;

#[test]
fn test_add_delta() {
    let result = add_delta(1, 0);
    assert_eq!(result.unwrap(), 1);

    let result = add_delta(1, -1);
    assert_eq!(result.unwrap(), 0);

    let result = add_delta(1, 1);
    assert_eq!(result.unwrap(), 2);

    let result = add_delta(340282366920938463463374607431768211441, 15);
    assert_eq!(result.err().unwrap().to_string(), "Liquidity Add");

    let result = add_delta(0, -1);
    assert_eq!(result.err().unwrap().to_string(), "Liquidity Sub");

    let result = add_delta(3, -4);
    assert_eq!(result.err().unwrap().to_string(), "Liquidity Sub");
}

#[test]
fn add_delta_round_trip_and_extremes() {
    let x = 123456789u128;
    let y = -98765i128;
    let z = add_delta(x, y).unwrap();
    assert_eq!(add_delta(z, -y).unwrap(), x);
    assert_eq!(add_delta(u128::MAX, 0).unwrap(), u128::MAX);
    assert_eq!(add_delta(u128::MAX, i128::MIN).unwrap(), u128::MAX - (1u128 << 127));
    assert_eq!(add_delta(0, i128::MAX).unwrap(), i128::MAX as u128);
    assert_eq!(
        add_delta(u128::MAX - 14, 15).err().unwrap().to_string(),
        "Liquidity Add"
    );
}

#[test]
fn test_get_amount_from_range() {
    let liquidity = 22402462192838616433_u128;
    let range_low = get_sqrt_ratio_at_tick(195540).unwrap();
    let range_high = get_sqrt_ratio_at_tick(195600).unwrap();

    let lower = get_sqrt_ratio_at_tick(190000).unwrap();
    let in_between = get_sqrt_ratio_at_tick(195574).unwrap();
    let higher = get_sqrt_ratio_at_tick(200000).unwrap();

    let (amount0, amount1) =
        get_amounts_for_liquidity(lower, range_low, range_high, liquidity).unwrap();
    assert_eq!(amount0, U256::from_u128(3809422905322_u128));
    assert_eq!(amount1, U256::zero());

    let (amount0, amount1) =
        get_amounts_for_liquidity(range_low, range_low, range_high, liquidity).unwrap();
    assert_eq!(amount0, U256::from_u128(3809422905322_u128));
    assert_eq!(amount1, U256::zero());

    let (amount0, amount1) =
        get_amounts_for_liquidity(in_between, range_low, range_high, liquidity).unwrap();
    assert_eq!(amount0, U256::from_u128(1649346952146_u128));
    assert_eq!(amount1, U256::from_u128(671393300975951287166_u128));

    let (amount0, amount1) =
        get_amounts_for_liquidity(range_high, range_low, range_high, liquidity).unwrap();
    assert_eq!(amount0, U256::zero());
    assert_eq!(amount1, U256::from_u128(1185582348830684008921_u128));

    let (amount0, amount1) =
        get_amounts_for_liquidity(higher, range_low, range_high, liquidity).unwrap();
    assert_eq!(amount0, U256::zero());
    assert_eq!(amount1, U256::from_u128(1185582348830684008921_u128));
}

#[test]
fn test_get_liquidity_from_amounts() {
    let amount0 = U256::from_u128(5_000_000e6 as u128);
    let amount1 = U256::from_u128(1_000e18 as u128);
    let range_low = get_sqrt_ratio_at_tick(195540).unwrap();
    let range_high = get_sqrt_ratio_at_tick(195600).unwrap();

    let lower = get_sqrt_ratio_at_tick(190000).unwrap();
    let in_between = get_sqrt_ratio_at_tick(195574).unwrap();
    let higher = get_sqrt_ratio_at_tick(200000).unwrap();

    let liquidity =
        get_liquidity_for_amounts(lower, range_low, range_high, amount0, amount1).unwrap();
    assert_eq!(liquidity, 29404010462500336572_u128);

    let liquidity =
        get_liquidity_for_amounts(range_low, range_low, range_high, amount0, amount1).unwrap();
    assert_eq!(liquidity, 29404010462500336572_u128);

    let liquidity =
        get_liquidity_for_amounts(in_between, range_low, range_high, amount0, amount1).unwrap();
    assert_eq!(liquidity, 33367122013689935176_u128);

    let liquidity =
        get_liquidity_for_amounts(range_high, range_low, range_high, amount0, amount1).unwrap();
    assert_eq!(liquidity, 18895745381949818729_u128);

    let liquidity =
        get_liquidity_for_amounts(higher, range_low, range_high, amount0, amount1).unwrap();
    assert_eq!(liquidity, 18895745381949818729_u128);
}

#[test]
fn liquidity_errors() {
    let p = get_sqrt_ratio_at_tick(0).unwrap();
    assert_eq!(
        get_amount0_for_liquidity(U256::zero(), p, 5).unwrap_err().to_string(),
        "Sqrt price is 0"
    );
    // an equal range divides by zero
    assert_eq!(
        get_liquidity_for_amount1(p, p, U256::from_u64(5)).unwrap_err().to_string(),
        "Denominator is 0"
    );
    // too much liquidity for 128 bits
    let r = get_liquidity_for_amount1(U256::from_u64(1), U256::from_u64(2), U256::from_u128(u128::MAX));
    assert_eq!(r.unwrap_err().to_string(), "Overflow when casting to U128");
}
