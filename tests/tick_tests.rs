use std::collections::HashMap;
use uniswap_v3_math::error::UniswapV3MathError;
use uniswap_v3_math::tick_bitmap::{flip_tick, next_initialized_tick_within_one_word, position};
use uniswap_v3_math::tick_math::{
    get_sqrt_ratio_at_tick, get_tick_at_sqrt_ratio, max_sqrt_ratio_word, min_sqrt_ratio_word,
    MAX_TICK, MIN_TICK,
};
use uniswap_v3_math::tick_bit_map::next_initialized_tick_within_one_word as search_word;
use uniswap_v3_math::u256::U256;

fn word(s: &str) -> U256 {
    U256::from_limbs(s.parse::<ruint::aliases::U256>().unwrap().into_limbs())
}

fn init_test_ticks() -> HashMap<i16, U256> {
    let test_ticks = vec![-200, -55, -4, 70, 78, 84, 139, 240, 535];
    let mut tick_bitmap: HashMap<i16, U256> = HashMap::new();
    for tick in test_ticks {
        flip_tick(&mut tick_bitmap, tick, 1).unwrap();
    }
    tick_bitmap
}

fn initialized(tick: i32, tick_bitmap: &HashMap<i16, U256>) -> bool {
    let (next, initialized) = next_initialized_tick_within_one_word(tick_bitmap, tick, 1, true).unwrap();
    if next == tick {
        initialized
    } else {
        false
    }
}

#[test]
fn test_next_initialized_tick_within_one_word_lte_false() {
    let mut tick_bitmap = init_test_ticks();
    let (next, initialized) = next_initialized_tick_within_one_word(&tick_bitmap, 78, 1, false).unwrap();
    assert_eq!(next, 84);
    assert!(initialized);
    tick_bitmap = init_test_ticks();
    let (next, initialized) = next_initialized_tick_within_one_word(&tick_bitmap, 77, 1, false).unwrap();
    assert_eq!(next, 78);
    assert!(initialized);
    tick_bitmap = init_test_ticks();
    let (next, initialized) = next_initialized_tick_within_one_word(&tick_bitmap, -56, 1, false).unwrap();
    assert_eq!(next, -55);
    assert!(initialized);
    tick_bitmap = init_test_ticks();
    let (next, initialized) = next_initialized_tick_within_one_word(&tick_bitmap, 255, 1, false).unwrap();
    assert_eq!(next, 511);
    assert!(!initialized);
    tick_bitmap = init_test_ticks();
    let (next, initialized) = next_initialized_tick_within_one_word(&tick_bitmap, -257, 1, false).unwrap();
    assert_eq!(next, -200);
    assert!(initialized);
    tick_bitmap = init_test_ticks();
    flip_tick(&mut tick_bitmap, 340, 1).unwrap();
    let (next, initialized) = next_initialized_tick_within_one_word(&tick_bitmap, 328, 1, false).unwrap();
    assert_eq!(next, 340);
    assert!(initialized);
    tick_bitmap = init_test_ticks();
    let (next, initialized) = next_initialized_tick_within_one_word(&tick_bitmap, 508, 1, false).unwrap();
    assert_eq!(next, 511);
    assert!(!initialized);
    tick_bitmap = init_test_ticks();
    let (next, initialized) = next_initialized_tick_within_one_word(&tick_bitmap, 255, 1, false).unwrap();
    assert_eq!(next, 511);
    assert!(!initialized);
    tick_bitmap = init_test_ticks();
    let (next, initialized) = next_initialized_tick_within_one_word(&tick_bitmap, 383, 1, false).unwrap();
    assert_eq!(next, 511);
    assert!(!initialized);
}

#[test]
fn test_next_initialized_tick_within_one_word_lte_true() {
    let mut tick_bitmap = init_test_ticks();
    let (next, initialized) = next_initialized_tick_within_one_word(&tick_bitmap, 78, 1, true).unwrap();
    assert_eq!(next, 78);
    assert!(initialized);
    tick_bitmap = init_test_ticks();
    let (next, initialized) = next_initialized_tick_within_one_word(&tick_bitmap, 79, 1, true).unwrap();
    assert_eq!(next, 78);
    assert!(initialized);
    tick_bitmap = init_test_ticks();
    let (next, initialized) = next_initialized_tick_within_one_word(&tick_bitmap, 258, 1, true).unwrap();
    assert_eq!(next, 256);
    assert!(!initialized);
    tick_bitmap = init_test_ticks();
    let (next, initialized) = next_initialized_tick_within_one_word(&tick_bitmap, 256, 1, true).unwrap();
    assert_eq!(next, 256);
    assert!(!initialized);
    tick_bitmap = init_test_ticks();
    let (next, initialized) = next_initialized_tick_within_one_word(&tick_bitmap, 72, 1, true).unwrap();
    assert_eq!(next, 70);
    assert!(initialized);
    tick_bitmap = init_test_ticks();
    let (next, initialized) = next_initialized_tick_within_one_word(&tick_bitmap, -257, 1, true).unwrap();
    assert_eq!(next, -512);
    assert!(!initialized);
    tick_bitmap = init_test_ticks();
    let (next, initialized) = next_initialized_tick_within_one_word(&tick_bitmap, 1023, 1, true).unwrap();
    assert_eq!(next, 768);
    assert!(!initialized);
    tick_bitmap = init_test_ticks();
    let (next, initialized) = next_initialized_tick_within_one_word(&tick_bitmap, 900, 1, true).unwrap();
    assert_eq!(next, 768);
    assert!(!initialized);
    tick_bitmap = init_test_ticks();
    flip_tick(&mut tick_bitmap, 329, 1).unwrap();
    let (next, initialized) = next_initialized_tick_within_one_word(&tick_bitmap, 456, 1, true).unwrap();
    assert_eq!(next, 329);
    assert!(initialized);
}

#[test]
fn test_initialized() {
    let mut tick_bitmap: HashMap<i16, U256> = HashMap::new();
    assert!(!initialized(1, &tick_bitmap));
    flip_tick(&mut tick_bitmap, 1, 1).unwrap();
    assert!(initialized(1, &tick_bitmap));

    tick_bitmap.clear();
    flip_tick(&mut tick_bitmap, 1, 1).unwrap();
    flip_tick(&mut tick_bitmap, 1, 1).unwrap();
    assert!(!initialized(1, &tick_bitmap));

    tick_bitmap.clear();
    flip_tick(&mut tick_bitmap, 2, 1).unwrap();
    assert!(!initialized(1, &tick_bitmap));

    tick_bitmap.clear();
    flip_tick(&mut tick_bitmap, 1 + 256, 1).unwrap();
    assert!(initialized(257, &tick_bitmap));
    assert!(!initialized(1, &tick_bitmap));
}

#[test]
fn test_flip_tick() {
    let mut tick_bitmap = HashMap::new();
    flip_tick(&mut tick_bitmap, -230, 1).unwrap();
    assert!(initialized(-230, &tick_bitmap));
    assert!(!initialized(-231, &tick_bitmap));
    assert!(!initialized(-229, &tick_bitmap));
    assert!(!initialized(-230 + 256, &tick_bitmap));
    assert!(!initialized(-230 - 256, &tick_bitmap));
    flip_tick(&mut tick_bitmap, -230, 1).unwrap();
    assert!(!initialized(-230, &tick_bitmap));
    assert!(!initialized(-231, &tick_bitmap));
    assert!(!initialized(-229, &tick_bitmap));
    assert!(!initialized(-230 + 256, &tick_bitmap));
    assert!(!initialized(-230 - 256, &tick_bitmap));

    tick_bitmap.clear();
    flip_tick(&mut tick_bitmap, -230, 1).unwrap();
    flip_tick(&mut tick_bitmap, -259, 1).unwrap();
    flip_tick(&mut tick_bitmap, -229, 1).unwrap();
    flip_tick(&mut tick_bitmap, 500, 1).unwrap();
    flip_tick(&mut tick_bitmap, -259, 1).unwrap();
    flip_tick(&mut tick_bitmap, -229, 1).unwrap();
    flip_tick(&mut tick_bitmap, -259, 1).unwrap();
    assert!(initialized(-259, &tick_bitmap));
    assert!(!initialized(-229, &tick_bitmap));
}

#[test]
fn flip_tick_rejects_ticks_off_the_spacing() {
    let mut tick_bitmap: HashMap<i16, U256> = HashMap::new();
    let r = flip_tick(&mut tick_bitmap, 7, 5);
    assert!(matches!(r, Err(UniswapV3MathError::TickSpacingError)));
    assert!(tick_bitmap.is_empty());
    flip_tick(&mut tick_bitmap, -10, 5).unwrap();
    let (next, initialized) = next_initialized_tick_within_one_word(&tick_bitmap, -7, 5, true).unwrap();
    assert_eq!((next, initialized), (-10, true));
    let (next, initialized) = next_initialized_tick_within_one_word(&tick_bitmap, -13, 5, false).unwrap();
    assert_eq!((next, initialized), (-10, true));
}

#[test]
fn position_splits_word_and_bit() {
    assert_eq!(position(0), (0, 0));
    assert_eq!(position(255), (0, 255));
    assert_eq!(position(256), (1, 0));
    assert_eq!(position(-1), (-1, 255));
    assert_eq!(position(-256), (-1, 0));
    assert_eq!(position(-257), (-2, 255));
}

#[test]
fn test_get_sqrt_ratio_at_tick_bounds() {
    if let Err(err) = get_sqrt_ratio_at_tick(MIN_TICK - 1) {
        assert!(matches!(err, UniswapV3MathError::T));
    } else {
        panic!("get_qrt_ratio_at_tick did not respect lower tick bound")
    }
    if let Err(err) = get_sqrt_ratio_at_tick(MAX_TICK + 1) {
        assert!(matches!(err, UniswapV3MathError::T));
    } else {
        panic!("get_qrt_ratio_at_tick did not respect upper tick bound")
    }
    assert!(matches!(get_sqrt_ratio_at_tick(i32::MIN), Err(UniswapV3MathError::T)));
}

#[test]
fn test_get_sqrt_ratio_at_tick_values() {
    assert_eq!(
        get_sqrt_ratio_at_tick(MIN_TICK).unwrap(),
        U256::from_u64(4295128739u64),
        "sqrt ratio at min incorrect"
    );
    assert_eq!(
        get_sqrt_ratio_at_tick(MIN_TICK + 1).unwrap(),
        U256::from_u64(4295343490u64),
        "sqrt ratio at min + 1 incorrect"
    );
    assert_eq!(
        get_sqrt_ratio_at_tick(MAX_TICK - 1).unwrap(),
        word("1461373636630004318706518188784493106690254656249"),
        "sqrt ratio at max - 1 incorrect"
    );
    assert_eq!(
        get_sqrt_ratio_at_tick(MAX_TICK).unwrap(),
        word("1461446703485210103287273052203988822378723970342"),
        "sqrt ratio at max incorrect"
    );
    assert_eq!(
        get_sqrt_ratio_at_tick(50).unwrap(),
        U256::from_u128(79426470787362580746886972461u128),
        "sqrt ratio at 50 incorrect"
    );
    assert_eq!(
        get_sqrt_ratio_at_tick(100).unwrap(),
        U256::from_u128(79625275426524748796330556128u128),
        "sqrt ratio at 100 incorrect"
    );
    assert_eq!(
        get_sqrt_ratio_at_tick(250).unwrap(),
        U256::from_u128(80224679980005306637834519095u128),
        "sqrt ratio at 250 incorrect"
    );
    assert_eq!(
        get_sqrt_ratio_at_tick(500).unwrap(),
        U256::from_u128(81233731461783161732293370115u128),
        "sqrt ratio at 500 incorrect"
    );
    assert_eq!(
        get_sqrt_ratio_at_tick(1000).unwrap(),
        U256::from_u128(83290069058676223003182343270u128),
        "sqrt ratio at 1000 incorrect"
    );
    assert_eq!(
        get_sqrt_ratio_at_tick(2500).unwrap(),
        U256::from_u128(89776708723587163891445672585u128),
        "sqrt ratio at 2500 incorrect"
    );
    assert_eq!(
        get_sqrt_ratio_at_tick(3000).unwrap(),
        U256::from_u128(92049301871182272007977902845u128),
        "sqrt ratio at 3000 incorrect"
    );
    assert_eq!(
        get_sqrt_ratio_at_tick(4000).unwrap(),
        U256::from_u128(96768528593268422080558758223u128),
        "sqrt ratio at 4000 incorrect"
    );
    assert_eq!(
        get_sqrt_ratio_at_tick(5000).unwrap(),
        U256::from_u128(101729702841318637793976746270u128),
        "sqrt ratio at 5000 incorrect"
    );
    assert_eq!(
        get_sqrt_ratio_at_tick(50000).unwrap(),
        U256::from_u128(965075977353221155028623082916u128),
        "sqrt ratio at 50000 incorrect"
    );
    assert_eq!(
        get_sqrt_ratio_at_tick(150000).unwrap(),
        U256::from_u128(143194173941309278083010301478497u128),
        "sqrt ratio at 150000 incorrect"
    );
    assert_eq!(
        get_sqrt_ratio_at_tick(250000).unwrap(),
        U256::from_u128(21246587762933397357449903968194344u128),
        "sqrt ratio at 250000 incorrect"
    );
    assert_eq!(
        get_sqrt_ratio_at_tick(500000).unwrap(),
        word("5697689776495288729098254600827762987878"),
        "sqrt ratio at 500000 incorrect"
    );
    assert_eq!(
        get_sqrt_ratio_at_tick(738203).unwrap(),
        word("847134979253254120489401328389043031315994541"),
        "sqrt ratio at 738203 incorrect"
    );
}

#[test]
fn test_get_tick_at_sqrt_ratio() {
    let below = U256::from_u64(4295128738);
    let result = get_tick_at_sqrt_ratio(below);
    assert_eq!(
        result.unwrap_err().to_string(),
        "Second inequality must be < because the price can never reach the price at the max tick"
    );

    let result = get_tick_at_sqrt_ratio(max_sqrt_ratio_word());
    assert_eq!(
        result.unwrap_err().to_string(),
        "Second inequality must be < because the price can never reach the price at the max tick"
    );

    let result = get_tick_at_sqrt_ratio(min_sqrt_ratio_word()).unwrap();
    assert_eq!(result, MIN_TICK);

    let result = get_tick_at_sqrt_ratio(word("4295343490")).unwrap();
    assert_eq!(result, MIN_TICK + 1);
}

#[test]
fn tick_round_trips_through_its_price() {
    let mut ticks = vec![MIN_TICK, MIN_TICK + 1, -500000, -1, 0, 1, 50, 195574, 500000, MAX_TICK - 1];
    let mut t = MIN_TICK;
    while t < MAX_TICK {
        ticks.push(t);
        t += 7919;
    }
    for tick in ticks {
        let price = get_sqrt_ratio_at_tick(tick).unwrap();
        assert_eq!(get_tick_at_sqrt_ratio(price).unwrap(), tick);
    }
}

#[test]
fn tick_at_price_just_below_the_next_tick_rounds_down() {
    let price = get_sqrt_ratio_at_tick(100).unwrap();
    let next = get_sqrt_ratio_at_tick(101).unwrap();
    let below_next = U256::from_limbs(
        (ruint::aliases::U256::from_limbs(next.into_limbs()) - ruint::aliases::U256::from(1u64))
            .into_limbs(),
    );
    assert_eq!(get_tick_at_sqrt_ratio(price).unwrap(), 100);
    assert_eq!(get_tick_at_sqrt_ratio(below_next).unwrap(), 100);
}

#[test]
fn flip_tick_accepts_a_negative_spacing() {
    let mut tick_bitmap: HashMap<i16, U256> = HashMap::new();
    let r = flip_tick(&mut tick_bitmap, 7, -5);
    assert!(matches!(r, Err(UniswapV3MathError::TickSpacingError)));
    assert!(tick_bitmap.is_empty());
    // -10 / -5 is compressed tick 2, the same bit as tick 10 with spacing 5
    flip_tick(&mut tick_bitmap, -10, -5).unwrap();
    let (next, initialized) = next_initialized_tick_within_one_word(&tick_bitmap, 10, 5, true).unwrap();
    assert_eq!((next, initialized), (10, true));
}

#[test]
fn word_search_with_a_large_spacing() {
    // the word's left edge, 0 * spacing, fits although 256 * spacing does not
    let r = search_word(100_000_000, true, 0, 0, U256::zero()).unwrap();
    assert_eq!(r, (0, false));
    // the right edge, 256 * spacing, does not fit in 32 bits
    let r = search_word(100_000_000, false, 0, 1, U256::zero());
    assert!(matches!(r, Err(UniswapV3MathError::T)));
    // an initialized bit close by fits
    let r = search_word(100_000_000, false, 0, 1, U256::from_u64(4)).unwrap();
    assert_eq!(r, (200_000_000, true));
}
