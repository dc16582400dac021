use uniswap_v3_math::full_math::{mul_div, mul_div_rounding_up, mul_mod};
use uniswap_v3_math::u256::U256;
use uniswap_v3_math::unsafe_math::div_rounding_up;

fn word(s: &str) -> U256 {
    U256::from_limbs(s.parse::<ruint::aliases::U256>().unwrap().into_limbs())
}

fn q128() -> U256 {
    U256::from_limbs([0, 0, 1, 0])
}

#[test]
fn test_mul_mod() {
    let result = mul_mod(U256::from_u64(256), U256::from_u64(5), U256::max_value());
    assert_eq!(result, U256::from_u64(1280));

    let result = mul_mod(U256::from_u64(100), U256::from_u64(100), U256::from_u64(21));
    assert_eq!(result, U256::from_u64(4));

    let result = mul_mod(U256::from_u64(100), U256::from_u64(100), U256::from_u64(0));
    assert_eq!(result, U256::from_u64(0));
}

#[test]
fn test_mul_div() {
    let result = mul_div(q128(), U256::from_u64(5), U256::zero());
    assert_eq!(result.err().unwrap().to_string(), "Denominator is 0");

    let result = mul_div(q128(), q128(), U256::zero());
    assert_eq!(
        result.err().unwrap().to_string(),
        "Denominator is less than or equal to prod_1"
    );

    let result = mul_div(q128(), q128(), U256::one());
    assert_eq!(
        result.err().unwrap().to_string(),
        "Denominator is less than or equal to prod_1"
    );
}

#[test]
fn mul_div_with_wide_product_is_exact() {
    // (2^128 * 2^128) / 2^129 = 2^127, through the 512-bit path
    let r = mul_div(q128(), q128(), U256::from_limbs([0, 0, 2, 0])).unwrap();
    assert_eq!(r, U256::from_limbs([0, 0x8000_0000_0000_0000, 0, 0]));
    // (2^256 - 1)^2 / (2^256 - 1) = 2^256 - 1, odd denominator
    let max = U256::max_value();
    assert_eq!(mul_div(max, max, max).unwrap(), max);
    // an odd and an even denominator on a product wider than a word
    let a = word("115792089237316195423570985008687907853269984665640564039457584007913129639935");
    let b = word("1000000000000000000000000000000");
    let d = word("3000000000000000000000000000001");
    let expected = (a.into_limbs(), b.into_limbs(), d.into_limbs());
    let ra = ruint::aliases::U512::from(ruint::aliases::U256::from_limbs(expected.0));
    let rb = ruint::aliases::U512::from(ruint::aliases::U256::from_limbs(expected.1));
    let rd = ruint::aliases::U512::from(ruint::aliases::U256::from_limbs(expected.2));
    let q = ra * rb / rd;
    let q256: ruint::aliases::U256 = q.to();
    assert_eq!(mul_div(a, b, d).unwrap(), U256::from_limbs(q256.into_limbs()));
    let d2 = word("3000000000000000000000000000064");
    let rd2 = ruint::aliases::U512::from(ruint::aliases::U256::from_limbs(d2.into_limbs()));
    let q2: ruint::aliases::U256 = (ra * rb / rd2).to();
    assert_eq!(mul_div(a, b, d2).unwrap(), U256::from_limbs(q2.into_limbs()));
}

#[test]
fn mul_div_small_product() {
    assert_eq!(
        mul_div(U256::from_u64(100), U256::from_u64(7), U256::from_u64(3)).unwrap(),
        U256::from_u64(233)
    );
}

#[test]
fn mul_div_rounding_up_rounds_and_overflows() {
    assert_eq!(
        mul_div_rounding_up(U256::from_u64(100), U256::from_u64(7), U256::from_u64(3)).unwrap(),
        U256::from_u64(234)
    );
    assert_eq!(
        mul_div_rounding_up(U256::from_u64(100), U256::from_u64(6), U256::from_u64(3)).unwrap(),
        U256::from_u64(200)
    );
    // (2^256 - 1) * (2^256 - 1) / (2^256 - 2) is just above 2^256 - 1 after rounding
    let max = U256::max_value();
    let below = word("115792089237316195423570985008687907853269984665640564039457584007913129639934");
    assert_eq!(
        mul_div_rounding_up(max, below, max).unwrap(),
        below
    );
    let r = mul_div_rounding_up(
        word("115792089237316195423570985008687907853269984665640564039457584007913129639935"),
        word("115792089237316195423570985008687907853269984665640564039457584007913129639934"),
        word("115792089237316195423570985008687907853269984665640564039457584007913129639934"),
    );
    assert_eq!(r.unwrap(), max);
    let r = mul_div_rounding_up(max, U256::from_u64(3), U256::from_u64(3));
    assert_eq!(r.unwrap(), max);
    let r = mul_div_rounding_up(
        word("57896044618658097711785492504343953926634992332820282019728792003956564819969"),
        U256::from_u64(2),
        U256::one(),
    );
    assert_eq!(r.unwrap_err().to_string(), "Denominator is less than or equal to prod_1");
    let r = mul_div_rounding_up(
        word("38597363079105398474523661669562635951089994888546854679819194669304376546645"),
        U256::from_u64(3),
        U256::one(),
    );
    assert_eq!(r.unwrap(), max);
    let r = mul_div_rounding_up(
        max,
        word("115792089237316195423570985008687907853269984665640564039457584007913129639934"),
        word("115792089237316195423570985008687907853269984665640564039457584007913129639933"),
    );
    assert_eq!(r.unwrap_err().to_string(), "Denominator is less than or equal to prod_1");
}

#[test]
fn result_at_the_maximum_cannot_round_up() {
    // 2^256 - 1 exactly, with a remainder left over
    let a = word("57896044618658097711785492504343953926634992332820282019728792003956564819968");
    let b = U256::from_u64(4);
    let d = U256::from_u64(2);
    assert_eq!(mul_div(a, b, d).unwrap_err().to_string(), "Denominator is less than or equal to prod_1");
    let max = U256::max_value();
    let r = mul_div_rounding_up(max, U256::from_u64(3), U256::from_u64(2));
    assert_eq!(r.unwrap_err().to_string(), "Denominator is less than or equal to prod_1");
    let r = mul_div_rounding_up(max, max, word("115792089237316195423570985008687907853269984665640564039457584007913129639934"));
    assert!(r.is_err());
    // the quotient is 2^256 - 1 with a remainder
    let r = mul_div_rounding_up(
        word("115792089237316195423570985008687907853269984665640564039457584007913129639934"),
        word("57896044618658097711785492504343953926634992332820282019728792003956564819969"),
        word("57896044618658097711785492504343953926634992332820282019728792003956564819968"),
    );
    assert_eq!(r.unwrap_err().to_string(), "Result is U256::MAX");
    let r = mul_div(
        word("115792089237316195423570985008687907853269984665640564039457584007913129639934"),
        word("57896044618658097711785492504343953926634992332820282019728792003956564819969"),
        word("57896044618658097711785492504343953926634992332820282019728792003956564819968"),
    );
    assert_eq!(r.unwrap(), max);
    assert_eq!(
        mul_div(max, word("1000000000000000000000000000000"), word("3000000000000000000000000000001")).unwrap(),
        word("38597363079105398474523661669549770163396959755722013459262678079249910893393")
    );
}

#[test]
fn div_rounding_up_values() {
    assert_eq!(div_rounding_up(U256::from_u64(7), U256::from_u64(2)), U256::from_u64(4));
    assert_eq!(div_rounding_up(U256::from_u64(8), U256::from_u64(2)), U256::from_u64(4));
    assert_eq!(div_rounding_up(U256::zero(), U256::from_u64(5)), U256::zero());
    assert_eq!(div_rounding_up(U256::max_value(), U256::one()), U256::max_value());
}
