use uniswap_v3_math::sqrt_price_math::{
    _get_amount_0_delta, _get_amount_1_delta, get_amount_0_delta, get_amount_1_delta,
    get_next_sqrt_price_from_amount_0_rounding_up, get_next_sqrt_price_from_amount_1_rounding_down,
    get_next_sqrt_price_from_input, get_next_sqrt_price_from_output, max_u160_word,
};
use uniswap_v3_math::u256::U256;

fn word(s: &str) -> U256 {
    U256::from_limbs(s.parse::<ruint::aliases::U256>().unwrap().into_limbs())
}

fn sub(a: U256, b: U256) -> U256 {
    let x = ruint::aliases::U256::from_limbs(a.into_limbs());
    let y = ruint::aliases::U256::from_limbs(b.into_limbs());
    U256::from_limbs((x - y).into_limbs())
}

fn add(a: U256, b: U256) -> U256 {
    let x = ruint::aliases::U256::from_limbs(a.into_limbs());
    let y = ruint::aliases::U256::from_limbs(b.into_limbs());
    U256::from_limbs((x + y).into_limbs())
}

#[test]
fn test_get_next_sqrt_price_from_input() {
    let result =
        get_next_sqrt_price_from_input(U256::zero(), 0, U256::from_u128(10000000000000000000_u128), false);
    assert_eq!(result.unwrap_err().to_string(), "Sqrt price is 0");

    let result = get_next_sqrt_price_from_input(max_u160_word(), 1024, U256::from_u64(1024), false);
    assert_eq!(result.unwrap_err().to_string(), "Overflow when casting to U160");

    let result = get_next_sqrt_price_from_input(
        U256::one(),
        1,
        word("57896044618658097711785492504343953926634992332820282019728792003956564819968"),
        true,
    );
    assert_eq!(result.unwrap(), U256::one());

    let result = get_next_sqrt_price_from_input(
        word("79228162514264337593543950336"),
        1e17 as u128,
        U256::zero(),
        true,
    );
    assert_eq!(result.unwrap(), word("79228162514264337593543950336"));

    let result = get_next_sqrt_price_from_input(
        word("79228162514264337593543950336"),
        1e17 as u128,
        U256::zero(),
        true,
    );
    assert_eq!(result.unwrap(), word("79228162514264337593543950336"));

    let sqrt_price = max_u160_word();
    let liquidity = u128::MAX;
    let shifted = ruint::aliases::U256::from(liquidity) << 96usize;
    let quotient = shifted / ruint::aliases::U256::from_limbs(sqrt_price.into_limbs());
    let max_amount_no_overflow =
        U256::from_limbs((ruint::aliases::U256::MAX - quotient).into_limbs());
    let result = get_next_sqrt_price_from_input(sqrt_price, liquidity, max_amount_no_overflow, true);
    assert_eq!(result.unwrap(), U256::one());

    let result = get_next_sqrt_price_from_input(
        word("79228162514264337593543950336"),
        1e18 as u128,
        word("100000000000000000"),
        false,
    );
    assert_eq!(result.unwrap(), word("87150978765690771352898345369"));

    let result = get_next_sqrt_price_from_input(
        word("79228162514264337593543950336"),
        1e18 as u128,
        word("100000000000000000"),
        true,
    );
    assert_eq!(result.unwrap(), word("72025602285694852357767227579"));

    let result = get_next_sqrt_price_from_input(
        word("79228162514264337593543950336"),
        10000000000000000000,
        word("1267650600228229401496703205376"),
        true,
    );
    assert_eq!(result.unwrap(), word("624999999995069620"));

    let half_max = U256::from_limbs((ruint::aliases::U256::MAX / ruint::aliases::U256::from(2u64)).into_limbs());
    let result =
        get_next_sqrt_price_from_input(word("79228162514264337593543950336"), 1, half_max, true);
    assert_eq!(result.unwrap(), U256::one());
}

#[test]
fn test_get_next_sqrt_price_from_output() {
    let result = get_next_sqrt_price_from_output(U256::zero(), 0, U256::from_u64(1000000000), false);
    assert_eq!(result.unwrap_err().to_string(), "Sqrt price is 0");

    let result = get_next_sqrt_price_from_output(U256::one(), 0, U256::from_u64(1000000000), false);
    assert_eq!(result.unwrap_err().to_string(), "Liquidity is 0");

    let result = get_next_sqrt_price_from_output(
        word("20282409603651670423947251286016"),
        1024,
        U256::from_u64(4),
        false,
    );
    assert_eq!(
        result.unwrap_err().to_string(),
        "require((product = amount * sqrtPX96) / amount == sqrtPX96 && numerator1 > product);"
    );

    let result = get_next_sqrt_price_from_output(
        word("20282409603651670423947251286016"),
        1024,
        U256::from_u64(5),
        false,
    );
    assert_eq!(
        result.unwrap_err().to_string(),
        "require((product = amount * sqrtPX96) / amount == sqrtPX96 && numerator1 > product);"
    );

    let result = get_next_sqrt_price_from_output(
        word("20282409603651670423947251286016"),
        1024,
        U256::from_u64(262145),
        true,
    );
    assert_eq!(result.unwrap_err().to_string(), "Sqrt price is less than or equal to quotient");

    let result = get_next_sqrt_price_from_output(
        word("20282409603651670423947251286016"),
        1024,
        U256::from_u64(262144),
        true,
    );
    assert_eq!(result.unwrap_err().to_string(), "Sqrt price is less than or equal to quotient");

    let result = get_next_sqrt_price_from_output(
        word("20282409603651670423947251286016"),
        1024,
        U256::from_u64(262143),
        true,
    );
    assert_eq!(result.unwrap(), word("77371252455336267181195264"));

    let result = get_next_sqrt_price_from_output(
        word("20282409603651670423947251286016"),
        1024,
        U256::from_u64(4),
        false,
    );
    assert_eq!(
        result.unwrap_err().to_string(),
        "require((product = amount * sqrtPX96) / amount == sqrtPX96 && numerator1 > product);"
    );

    let result = get_next_sqrt_price_from_output(
        word("79228162514264337593543950336"),
        1e17 as u128,
        U256::zero(),
        true,
    );
    assert_eq!(result.unwrap(), word("79228162514264337593543950336"));

    let result = get_next_sqrt_price_from_output(
        word("79228162514264337593543950336"),
        1e17 as u128,
        U256::zero(),
        false,
    );
    assert_eq!(result.unwrap(), word("79228162514264337593543950336"));

    let result = get_next_sqrt_price_from_output(
        word("79228162514264337593543950336"),
        1e18 as u128,
        U256::from_u128(1e17 as u128),
        false,
    );
    assert_eq!(result.unwrap(), word("88031291682515930659493278152"));

    let result = get_next_sqrt_price_from_output(
        word("79228162514264337593543950336"),
        1e18 as u128,
        U256::from_u128(1e17 as u128),
        true,
    );
    assert_eq!(result.unwrap(), word("71305346262837903834189555302"));

    let result = get_next_sqrt_price_from_output(
        word("79228162514264337593543950336"),
        1,
        U256::max_value(),
        true,
    );
    assert_eq!(result.unwrap_err().to_string(), "Denominator is less than or equal to prod_1");

    let result = get_next_sqrt_price_from_output(
        word("79228162514264337593543950336"),
        1,
        U256::max_value(),
        false,
    );
    assert_eq!(
        result.unwrap_err().to_string(),
        "require((product = amount * sqrtPX96) / amount == sqrtPX96 && numerator1 > product);"
    );
}

#[test]
fn test_get_amount_1_delta() {
    let amount_1 = _get_amount_1_delta(
        word("79228162514264337593543950336"),
        word("79228162514264337593543950336"),
        0,
        true,
    );
    assert_eq!(amount_1.unwrap(), U256::zero());

    let amount_1 = _get_amount_1_delta(
        word("79228162514264337593543950336"),
        word("87150978765690771352898345369"),
        0,
        true,
    );
    assert_eq!(amount_1.unwrap(), U256::zero());

    let amount_1 = _get_amount_1_delta(
        word("79228162514264337593543950336"),
        word("87150978765690771352898345369"),
        1e18 as i128,
        true,
    )
    .unwrap();
    assert_eq!(amount_1, word("100000000000000000"));

    let amount_1_rounded_down = _get_amount_1_delta(
        word("79228162514264337593543950336"),
        word("87150978765690771352898345369"),
        1e18 as i128,
        false,
    );
    assert_eq!(amount_1_rounded_down.unwrap(), sub(amount_1, U256::one()));
}

#[test]
fn test_get_amount_0_delta() {
    let amount_0 = _get_amount_0_delta(
        word("79228162514264337593543950336"),
        word("79228162514264337593543950336"),
        0,
        true,
    );
    assert_eq!(amount_0.unwrap(), U256::zero());

    let amount_0 = _get_amount_0_delta(
        word("79228162514264337593543950336"),
        word("87150978765690771352898345369"),
        0,
        true,
    );
    assert_eq!(amount_0.unwrap(), U256::zero());

    let amount_0 = _get_amount_0_delta(
        word("79228162514264337593543950336"),
        word("87150978765690771352898345369"),
        1e18 as i128,
        true,
    )
    .unwrap();
    assert_eq!(amount_0, word("90909090909090910"));

    let amount_0_rounded_down = _get_amount_0_delta(
        word("79228162514264337593543950336"),
        word("87150978765690771352898345369"),
        1e18 as i128,
        false,
    );
    assert_eq!(amount_0_rounded_down.unwrap(), sub(amount_0, U256::one()));

    let amount_0_up = _get_amount_0_delta(
        word("2787593149816327892691964784081045188247552"),
        word("22300745198530623141535718272648361505980416"),
        1e18 as i128,
        true,
    )
    .unwrap();
    let amount_0_down = _get_amount_0_delta(
        word("2787593149816327892691964784081045188247552"),
        word("22300745198530623141535718272648361505980416"),
        1e18 as i128,
        false,
    )
    .unwrap();
    assert_eq!(amount_0_up, add(amount_0_down, U256::one()));
}

#[test]
fn test_get_next_sqrt_price_from_amount_1_rounding_down() {}

#[test]
fn test_get_next_sqrt_price_from_amount_0_rounding_up() {}

#[test]
fn test_swap_computation() {
    let sqrt_price = word("1025574284609383690408304870162715216695788925244");
    let liquidity = 50015962439936049619261659728067971248u128;
    let zero_for_one = true;
    let amount_in = U256::from_u64(406);

    let sqrt_q = get_next_sqrt_price_from_input(sqrt_price, liquidity, amount_in, zero_for_one).unwrap();
    assert_eq!(sqrt_q, word("1025574284609383582644711336373707553698163132913"));

    let amount_0_delta = _get_amount_0_delta(sqrt_q, sqrt_price, liquidity as i128, true).unwrap();
    assert_eq!(amount_0_delta, U256::from_u64(406));
}

#[test]
fn signed_deltas_negate_for_removed_liquidity() {
    let a = word("79228162514264337593543950336");
    let b = word("87150978765690771352898345369");
    let up = get_amount_0_delta(a, b, 1e18 as i128).unwrap();
    assert!(up.is_nonnegative());
    assert_eq!(up.into_raw(), word("90909090909090910"));
    let down = get_amount_0_delta(a, b, -(1e18 as i128)).unwrap();
    assert!(!down.is_nonnegative());
    // -(90909090909090909) in two's complement
    let expected = sub(U256::zero(), word("90909090909090909"));
    assert_eq!(down.into_raw(), expected);
    let up1 = get_amount_1_delta(a, b, 1e18 as i128).unwrap();
    assert_eq!(up1.into_raw(), word("100000000000000000"));
    let down1 = get_amount_1_delta(a, b, -(1e18 as i128)).unwrap();
    assert_eq!(down1.into_raw(), sub(U256::zero(), word("99999999999999999")));
    assert_eq!(
        get_amount_0_delta(U256::zero(), b, 5).unwrap_err().to_string(),
        "Sqrt price is 0"
    );
}

#[test]
fn next_price_token1_paths() {
    let price = word("79228162514264337593543950336");
    // amounts above 160 bits go through mul_div
    let big = word("1461501637330902918203684832716283019655932542976");
    let r = get_next_sqrt_price_from_amount_1_rounding_down(price, 1, big, true).unwrap_err();
    assert_eq!(r.to_string(), "Denominator is less than or equal to prod_1");
    let r = get_next_sqrt_price_from_amount_1_rounding_down(price, 1u128 << 100, big, true).unwrap();
    assert_eq!(r, add(price, word("91343852333181432387730302044767688728495783936")));
    let r = get_next_sqrt_price_from_amount_1_rounding_down(price, 1, U256::from_u64(1), true).unwrap();
    assert_eq!(r, add(price, word("79228162514264337593543950336")));
    let r = get_next_sqrt_price_from_amount_0_rounding_up(price, 1, U256::zero(), false).unwrap();
    assert_eq!(r, price);
}

#[test]
fn token0_fallback_with_wrapping_denominator() {
    // the fallback denominator liquidity * 2^96 / price + amount passes 2^256
    let r = get_next_sqrt_price_from_input(
        U256::one(),
        u128::MAX,
        word("115792089210356248756420345214020892766250353992082647779431275864403063341061"),
        true,
    );
    assert_eq!(r.unwrap_err().to_string(), "Overflow");
    let r = get_next_sqrt_price_from_input(
        U256::one(),
        1,
        word("115792089237316195423570985008687907853269984665561335876943319670319585689601"),
        true,
    );
    assert_eq!(r.unwrap_err().to_string(), "Overflow");
}

#[test]
fn prices_move_in_the_direction_of_the_flow() {
    let price = word("79228162514264337593543950336");
    let liquidity = 1e18 as u128;
    let amount = word("100000000000000000");
    let down = get_next_sqrt_price_from_input(price, liquidity, amount, true).unwrap();
    let up = get_next_sqrt_price_from_input(price, liquidity, amount, false).unwrap();
    assert!(down.lt(&price) && up.gt(&price));
    let down = get_next_sqrt_price_from_output(price, liquidity, amount, true).unwrap();
    let up = get_next_sqrt_price_from_output(price, liquidity, amount, false).unwrap();
    assert!(down.lt(&price) && up.gt(&price));
}
