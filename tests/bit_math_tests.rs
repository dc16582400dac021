use uniswap_v3_math::bit_math::{least_significant_bit, most_significant_bit};
use uniswap_v3_math::u256::U256;

fn word(s: &str) -> U256 {
    U256::from_limbs(s.parse::<ruint::aliases::U256>().unwrap().into_limbs())
}

fn power_of_two(i: usize) -> U256 {
    U256::from_limbs((ruint::aliases::U256::from(1u64) << i).into_limbs())
}

#[test]
fn test_most_significant_bit() {
    let result = most_significant_bit(U256::zero());
    assert_eq!(
        result.unwrap_err().to_string(),
        "Can not get most significant bit or least significant bit on zero value"
    );

    let result = most_significant_bit(U256::one());
    assert_eq!(result.unwrap(), 0);

    let result = most_significant_bit(U256::from_u64(2));
    assert_eq!(result.unwrap(), 1);

    for i in 0..=255 {
        let result = most_significant_bit(power_of_two(i));
        assert_eq!(result.unwrap(), i as u8);
    }

    let result = most_significant_bit(word(
        "115792089237316195423570985008687907853269984665640564039457584007913129639935",
    ));
    assert_eq!(result.unwrap(), 255);
}

#[test]
fn test_least_significant_bit() {
    let result = least_significant_bit(U256::zero());
    assert_eq!(
        result.unwrap_err().to_string(),
        "Can not get most significant bit or least significant bit on zero value"
    );

    let result = least_significant_bit(U256::one());
    assert_eq!(result.unwrap(), 0);

    let result = least_significant_bit(U256::from_u64(2));
    assert_eq!(result.unwrap(), 1);

    for i in 0..=255 {
        let result = least_significant_bit(power_of_two(i));
        assert_eq!(result.unwrap(), i as u8);
    }

    let result = least_significant_bit(word(
        "115792089237316195423570985008687907853269984665640564039457584007913129639935",
    ));
    assert_eq!(result.unwrap(), 0);
}

#[test]
fn bit_scans_of_a_mixed_word() {
    // bits 3 and 200 set
    let w = U256::from_limbs(
        ((ruint::aliases::U256::from(1u64) << 200usize) | ruint::aliases::U256::from(8u64))
            .into_limbs(),
    );
    assert_eq!(most_significant_bit(w).unwrap(), 200);
    assert_eq!(least_significant_bit(w).unwrap(), 3);
}
