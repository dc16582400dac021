use uniswap_v3_math::swap_math::compute_swap_step;
use uniswap_v3_math::u256::{I256, U256};

fn word(s: &str) -> U256 {
    U256::from_limbs(s.parse::<ruint::aliases::U256>().unwrap().into_limbs())
}

fn signed(s: &str) -> I256 {
    I256::from_i128(s.parse::<i128>().unwrap())
}

fn add(a: U256, b: U256) -> U256 {
    let x = ruint::aliases::U256::from_limbs(a.into_limbs());
    let y = ruint::aliases::U256::from_limbs(b.into_limbs());
    U256::from_limbs((x + y).into_limbs())
}

#[test]
fn test_compute_swap_step() {
    let (sqrt_p, amount_in, amount_out, fee_amount) = compute_swap_step(
        word("79228162514264337593543950336"),
        word("79623317895830914510639640423"),
        2e18 as u128,
        signed("1000000000000000000"),
        600,
    )
    .unwrap();
    assert_eq!(sqrt_p, word("79623317895830914510639640423"));
    assert_eq!(amount_out, word("9925619580021728"));
    assert_eq!(amount_in, word("9975124224178055"));
    assert_eq!(fee_amount, word("5988667735148"));

    let (sqrt_p, amount_in, amount_out, fee_amount) = compute_swap_step(
        word("79228162514264337593543950336"),
        word("79623317895830914510639640424"),
        2e18 as u128,
        signed("-1000000000000000000"),
        600,
    )
    .unwrap();
    assert_eq!(sqrt_p, word("79623317895830914510639640424"));
    assert_eq!(amount_out, word("9925619580021728"));
    assert_eq!(amount_in, word("9975124224178055"));
    assert_eq!(fee_amount, word("5988667735148"));
    assert!(amount_out.lt(&word("1000000000000000000")));

    let (_, amount_in, amount_out, fee_amount) = compute_swap_step(
        word("79228162514264337593543950336"),
        word("250541448375047931186413801569"),
        2e18 as u128,
        signed("1000000000000000000"),
        600,
    )
    .unwrap();
    assert_eq!(amount_out, word("666399946655997866"));
    assert_eq!(amount_in, word("999400000000000000"));
    assert_eq!(fee_amount, word("600000000000000"));
    assert_eq!(add(amount_in, fee_amount), word("1000000000000000000"));

    let (_, amount_in, amount_out, fee_amount) = compute_swap_step(
        word("79228162514264337593543950336"),
        word("792281625142643375935439503360"),
        2e18 as u128,
        signed("-1000000000000000000"),
        600,
    )
    .unwrap();
    assert_eq!(amount_out, word("1000000000000000000"));
    assert_eq!(amount_in, word("2000000000000000000"));
    assert_eq!(fee_amount, word("1200720432259356"));

    let (sqrt_p, amount_in, amount_out, fee_amount) = compute_swap_step(
        word("417332158212080721273783715441582"),
        word("1452870262520218020823638996"),
        159344665391607089467575320103_u128,
        signed("-1"),
        1,
    )
    .unwrap();
    assert_eq!(amount_out, word("1"));
    assert_eq!(amount_in, word("1"));
    assert_eq!(fee_amount, word("1"));
    assert_eq!(sqrt_p, word("417332158212080721273783715441581"));

    let (sqrt_p, amount_in, amount_out, fee_amount) = compute_swap_step(
        word("2"),
        word("1"),
        1_u128,
        signed("3915081100057732413702495386755767"),
        1,
    )
    .unwrap();
    assert_eq!(amount_out, word("0"));
    assert_eq!(amount_in, word("39614081257132168796771975168"));
    assert_eq!(fee_amount, word("39614120871253040049813"));
    assert_eq!(sqrt_p, word("1"));

    let (sqrt_p, amount_in, amount_out, fee_amount) = compute_swap_step(
        word("2413"),
        word("79887613182836312"),
        1985041575832132834610021537970_u128,
        signed("10"),
        1872,
    )
    .unwrap();
    assert_eq!(amount_out, word("0"));
    assert_eq!(amount_in, word("0"));
    assert_eq!(fee_amount, word("10"));
    assert_eq!(sqrt_p, word("2413"));

    let (sqrt_p, amount_in, amount_out, fee_amount) = compute_swap_step(
        word("20282409603651670423947251286016"),
        word("22310650564016837466341976414617"),
        1024_u128,
        signed("-4"),
        3000,
    )
    .unwrap();
    assert_eq!(amount_out, word("0"));
    assert_eq!(amount_in, word("26215"));
    assert_eq!(fee_amount, word("79"));
    assert_eq!(sqrt_p, word("22310650564016837466341976414617"));

    let (sqrt_p, amount_in, amount_out, fee_amount) = compute_swap_step(
        word("20282409603651670423947251286016"),
        word("18254168643286503381552526157414"),
        1024_u128,
        signed("-263000"),
        3000,
    )
    .unwrap();
    assert_eq!(amount_out, word("26214"));
    assert_eq!(amount_in, U256::one());
    assert_eq!(fee_amount, U256::one());
    assert_eq!(sqrt_p, word("18254168643286503381552526157414"));
}

#[test]
fn exact_input_short_of_target_takes_the_rest_as_fee() {
    let remaining = "1000000000000000000";
    let (sqrt_p, amount_in, _, fee_amount) = compute_swap_step(
        word("79228162514264337593543950336"),
        word("250541448375047931186413801569"),
        2e18 as u128,
        signed(remaining),
        3000,
    )
    .unwrap();
    assert!(!sqrt_p.eq(&word("250541448375047931186413801569")));
    assert_eq!(add(amount_in, fee_amount), word(remaining));
}

#[test]
fn swap_step_with_zero_liquidity_fails() {
    // one for zero, exact input short of the target: the next price needs liquidity
    let r = compute_swap_step(
        word("79228162514264337593543950336"),
        word("250541448375047931186413801569"),
        0,
        signed("1000"),
        3000,
    );
    assert!(r.is_ok());
    let r = compute_swap_step(
        U256::zero(),
        word("250541448375047931186413801569"),
        0,
        signed("-1000"),
        3000,
    );
    assert_eq!(r.unwrap_err().to_string(), "Sqrt price is 0");
}

#[test]
fn swap_step_with_liquidity_above_two_to_the_127() {
    let (sqrt_p, amount_in, amount_out, fee_amount) = compute_swap_step(
        word("79228162514264337593543950336"),
        word("79228162514264337593543951336"),
        u128::MAX,
        signed("1000000000000000000"),
        600,
    )
    .unwrap();
    assert_eq!(sqrt_p, word("79228162514264337593543951336"));
    assert_eq!(amount_in, word("4294967296000"));
    assert_eq!(amount_out, word("4294967295999"));
    assert_eq!(fee_amount, word("2578527495"));
}
