//! Conversion between ticks and square-root prices.
use vstd::prelude::*;
use vstd::arithmetic::power2::pow2;
use vstd::arithmetic::div_mod::{
    lemma_div_is_ordered, lemma_div_multiples_vanish, lemma_small_mod,
    lemma_div_is_ordered_by_denominator,
};
use crate::bit_math::most_significant_bit;
use crate::bits::{log2_floor, lemma_log2_floor_bounds};
use crate::error::UniswapV3MathError;
use crate::full_math::word_result;
use crate::u256::{
    U256, I256, word_modulus, word_max, half_modulus, wrapping_add, wrapping_sub, wrapping_mul,
    div, rem, shl, shr, arithmetic_shr, lemma_word_limbs, lemma_pow2_256, lemma_raw_is_val_mod,
    lemma_signed_wrap,
};

verus! {

/// The smallest tick.
pub const MIN_TICK: i32 = -887272;

/// The largest tick.
pub const MAX_TICK: i32 = 887272;

/// 2^128, the scale of a Q128.128 ratio.
pub open spec fn q128() -> nat {
    340282366920938463463374607431768211456nat
}

/// 2^32.
pub open spec fn q32() -> nat {
    0x1_0000_0000
}

/// Whether bit `i` of the absolute tick is set.
pub open spec fn tick_bit(abs_tick: u32, i: u32) -> bool {
    (abs_tick >> i) & 1u32 == 1u32
}

/// The starting ratio, from bit 0 of the absolute tick.
pub open spec fn ratio_seed(abs_tick: u32) -> nat {
    if tick_bit(abs_tick, 0) {
        340265354078544963557816517032075149313nat
    } else {
        q128()
    }
}

/// The factor for bit `i` of the absolute tick: `sqrt(1.0001)^(-2^i)` in Q128.128.
pub open spec fn sqrt_factor(i: nat) -> nat {
    if i == 1 {
        340248342086729790484326174814286782778nat
    } else if i == 2 {
        340214320654664324051920982716015181260nat
    } else if i == 3 {
        340146287995602323631171512101879684304nat
    } else if i == 4 {
        340010263488231146823593991679159461444nat
    } else if i == 5 {
        339738377640345403697157401104375502016nat
    } else if i == 6 {
        339195258003219555707034227454543997025nat
    } else if i == 7 {
        338111622100601834656805679988414885971nat
    } else if i == 8 {
        335954724994790223023589805789778977700nat
    } else if i == 9 {
        331682121138379247127172139078559817300nat
    } else if i == 10 {
        323299236684853023288211250268160618739nat
    } else if i == 11 {
        307163716377032989948697243942600083929nat
    } else if i == 12 {
        277268403626896220162999269216087595045nat
    } else if i == 13 {
        225923453940442621947126027127485391333nat
    } else if i == 14 {
        149997214084966997727330242082538205943nat
    } else if i == 15 {
        66119101136024775622716233608466517926nat
    } else if i == 16 {
        12847376061809297530290974190478138313nat
    } else if i == 17 {
        485053260817066172746253684029974020nat
    } else if i == 18 {
        691415978906521570653435304214168nat
    } else if i == 19 {
        1404880482679654955896180642nat
    } else {
        0
    }
}

/// A lower bound of the running ratio before bit `i` is applied, whichever
/// bits are set.
pub open spec fn ratio_floor(i: nat) -> nat {
    if i == 1 {
        340265354078544963557816517032075149313nat
    } else if i == 2 {
        340231330945450418515964920540021147198nat
    } else if i == 3 {
        340163294884840501567246455576441303173nat
    } else if i == 4 {
        340027263576413978334042125129128142263nat
    } else if i == 5 {
        339755364134575681238502878529008278326nat
    } else if i == 6 {
        339212217342146842559531600927033253847nat
    } else if i == 7 {
        338128527259088467778511436198880488164nat
    } else if i == 8 {
        335971522311117552149334092109581418674nat
    } else if i == 9 {
        331698704829854243503582989311158516586nat
    } else if i == 10 {
        323315401242583425022802937239550140918nat
    } else if i == 11 {
        307179074178916392659402722612948179612nat
    } else if i == 12 {
        277282266700509388632609933215391170106nat
    } else if i == 13 {
        225934749830749445986089663015556949343nat
    } else if i == 14 {
        150004713758184102711002566140788444796nat
    } else if i == 15 {
        66122407008436832627027740713496573148nat
    } else if i == 16 {
        12848018414553970828728179856918040433nat
    } else if i == 17 {
        485077512873820763967752669154895175nat
    } else if i == 18 {
        691450548841240133896843047535567nat
    } else if i == 19 {
        1404950724947776134837143967nat
    } else if i == 20 {
        5800441176149320nat
    } else {
        0
    }
}

/// The factor for bit `i` as a word.
fn sqrt_factor_word(i: u32) -> (r: U256)
    requires
        1 <= i <= 19,
    ensures
        r.val() == sqrt_factor(i as nat),
{
    if i == 1 {
        U256 { limb0: 6459403834229662010, limb1: 18444899583751176498, limb2: 0, limb3: 0 }
    } else if i == 2 {
        U256 { limb0: 17226890335427755468, limb1: 18443055278223354162, limb2: 0, limb3: 0 }
    } else if i == 3 {
        U256 { limb0: 2032852871939366096, limb1: 18439367220385604838, limb2: 0, limb3: 0 }
    } else if i == 4 {
        U256 { limb0: 14545316742740207172, limb1: 18431993317065449817, limb2: 0, limb3: 0 }
    } else if i == 5 {
        U256 { limb0: 5129152022828963008, limb1: 18417254355718160513, limb2: 0, limb3: 0 }
    } else if i == 6 {
        U256 { limb0: 4894419605888772193, limb1: 18387811781193591352, limb2: 0, limb3: 0 }
    } else if i == 7 {
        U256 { limb0: 1280255884321894483, limb1: 18329067761203520168, limb2: 0, limb3: 0 }
    } else if i == 8 {
        U256 { limb0: 15924666964335305636, limb1: 18212142134806087854, limb2: 0, limb3: 0 }
    } else if i == 9 {
        U256 { limb0: 8010504389359918676, limb1: 17980523815641551639, limb2: 0, limb3: 0 }
    } else if i == 10 {
        U256 { limb0: 10668036004952895731, limb1: 17526086738831147013, limb2: 0, limb3: 0 }
    } else if i == 11 {
        U256 { limb0: 4878133418470705625, limb1: 16651378430235024244, limb2: 0, limb3: 0 }
    } else if i == 12 {
        U256 { limb0: 9537173718739605541, limb1: 15030750278693429944, limb2: 0, limb3: 0 }
    } else if i == 13 {
        U256 { limb0: 9972618978014552549, limb1: 12247334978882834399, limb2: 0, limb3: 0 }
    } else if i == 14 {
        U256 { limb0: 10428997489610666743, limb1: 8131365268884726200, limb2: 0, limb3: 0 }
    } else if i == 15 {
        U256 { limb0: 9305304367709015974, limb1: 3584323654723342297, limb2: 0, limb3: 0 }
    } else if i == 16 {
        U256 { limb0: 14301143598189091785, limb1: 696457651847595233, limb2: 0, limb3: 0 }
    } else if i == 17 {
        U256 { limb0: 7393154844743099908, limb1: 26294789957452057, limb2: 0, limb3: 0 }
    } else if i == 18 {
        U256 { limb0: 2209338891292245656, limb1: 37481735321082, limb2: 0, limb3: 0 }
    } else if i == 19 {
        U256 { limb0: 10518117631919034274, limb1: 76158723, limb2: 0, limb3: 0 }
    } else {
        U256 { limb0: 0, limb1: 0, limb2: 0, limb3: 0 }
    }
}

/// The Q128.128 ratio once the bits below `i` of the absolute tick have
/// been applied.
pub open spec fn ratio_after(abs_tick: u32, i: nat) -> nat
    decreases i,
{
    if i <= 1 {
        ratio_seed(abs_tick)
    } else {
        let r = ratio_after(abs_tick, (i - 1) as nat);
        if tick_bit(abs_tick, (i - 1) as u32) {
            r * sqrt_factor((i - 1) as nat) / q128()
        } else {
            r
        }
    }
}

/// `|tick|`.
pub open spec fn abs_tick(tick: int) -> nat {
    if tick < 0 {
        (-tick) as nat
    } else {
        tick as nat
    }
}

/// The Q64.96 square-root price of a tick in range: `sqrt(1.0001)^tick`
/// by binary exponentiation in Q128.128, inverted for positive ticks, then
/// scaled down rounding up.
pub open spec fn sqrt_ratio_at_tick(tick: int) -> nat {
    let r = ratio_after(abs_tick(tick) as u32, 20);
    let r2 = if tick > 0 {
        word_max() / r
    } else {
        r
    };
    r2 / q32() + if r2 % q32() == 0 {
        0nat
    } else {
        1nat
    }
}

/// What `get_sqrt_ratio_at_tick` returns.
pub open spec fn sqrt_ratio_result(tick: int) -> Result<nat, UniswapV3MathError> {
    if abs_tick(tick) > 887272 {
        Err(UniswapV3MathError::T)
    } else {
        Ok(sqrt_ratio_at_tick(tick))
    }
}

/// One factor applied to the running ratio stays in a word, keeps the ratio
/// at most 2^128, and keeps it above the next lower bound.
proof fn lemma_ratio_step(r: nat, c: nat, lo: nat, lo_next: nat)
    requires
        lo <= r <= q128(),
        c < q128(),
        lo_next == lo * c / q128(),
    ensures
        r * c < word_modulus(),
        lo_next <= r * c / q128() <= r,
        lo_next <= lo,
{
    let t = q128();
    assert(word_modulus() == t * t) by {
        lemma_pow2_256();
        vstd::arithmetic::power2::lemma_pow2_adds(128, 128);
    }
    assert(r * c < t * t) by (nonlinear_arith)
        requires
            r <= t,
            c < t,
            t > 0,
    ;
    assert(lo * c <= r * c) by (nonlinear_arith)
        requires
            lo <= r,
    ;
    lemma_div_is_ordered((lo * c) as int, (r * c) as int, t as int);
    assert(r * c <= r * t) by (nonlinear_arith)
        requires
            c < t,
    ;
    lemma_div_is_ordered((r * c) as int, (r * t) as int, t as int);
    lemma_div_multiples_vanish(r as int, t as int);
    assert(lo * c <= lo * t) by (nonlinear_arith)
        requires
            c < t,
    ;
    lemma_div_is_ordered((lo * c) as int, (lo * t) as int, t as int);
    lemma_div_multiples_vanish(lo as int, t as int);
}

/// Each factor is below 2^128.
proof fn lemma_factor_bounds(i: nat)
    requires
        1 <= i <= 19,
    ensures
        sqrt_factor(i) < q128(),
        ratio_floor(i + 1) == ratio_floor(i) * sqrt_factor(i) / q128(),
{
}

/// The square-root price at a tick, as a Q64.96 number; ticks beyond
/// `[MIN_TICK, MAX_TICK]` are refused.
pub fn get_sqrt_ratio_at_tick(tick: i32) -> (r: Result<U256, UniswapV3MathError>)
    ensures
        word_result(r) == sqrt_ratio_result(tick as int),
{
    let abs_tick: u32 = if tick < 0 {
        (-(tick as i64)) as u32
    } else {
        tick as u32
    };
    if abs_tick > 887272 {
        return Err(UniswapV3MathError::T);
    }
    proof {
        lemma_pow2_256();
    }
    let mut ratio = if (abs_tick >> 0u32) & 1u32 == 1u32 {
        U256 { limb0: 12262481743371124737, limb1: 18445821805675392311, limb2: 0, limb3: 0 }
    } else {
        U256 { limb0: 0, limb1: 0, limb2: 1, limb3: 0 }
    };
    let mut i: u32 = 1;
    while i < 20
        invariant
            1 <= i <= 20,
            ratio.val() == ratio_after(abs_tick, i as nat),
            ratio_floor(i as nat) <= ratio.val() <= q128(),
            pow2(128) == q128(),
        decreases 20 - i,
    {
        proof {
            lemma_factor_bounds(i as nat);
            lemma_ratio_step(
                ratio.val(),
                sqrt_factor(i as nat),
                ratio_floor(i as nat),
                ratio_floor((i + 1) as nat),
            );
        }
        if (abs_tick >> i) & 1u32 == 1u32 {
            let factor = sqrt_factor_word(i);
            proof {
                lemma_small_mod(ratio.val() * factor.val(), word_modulus());
            }
            ratio = shr(wrapping_mul(ratio, factor), 128);
        }
        i = i + 1;
    }
    if tick > 0 {
        ratio = div(U256::max_value(), ratio);
    }
    proof {
        lemma_word_limbs(ratio);
        vstd::arithmetic::power2::lemma2_to64();
        lemma_div_is_ordered_by_denominator(ratio.val() as int, 1, q32() as int);
        lemma_small_mod(ratio.val() / q32() + 1, word_modulus());
    }
    let low_bits = rem(ratio, U256::from_u64(0x1_0000_0000));
    let scaled = shr(ratio, 32);
    if low_bits.is_zero() {
        Ok(scaled)
    } else {
        Ok(wrapping_add(scaled, U256::one()))
    }
}

/// The smallest square-root price, that of `MIN_TICK`.
pub open spec fn min_sqrt_ratio() -> nat {
    4295128739
}

/// One above the largest square-root price, that of `MAX_TICK`.
pub open spec fn max_sqrt_ratio() -> nat {
    1461446703485210103287273052203988822378723970342nat
}

/// `MIN_SQRT_RATIO` as a word.
pub fn min_sqrt_ratio_word() -> (r: U256)
    ensures
        r.val() == min_sqrt_ratio(),
{
    U256 { limb0: 4295128739, limb1: 0, limb2: 0, limb3: 0 }
}

/// `MAX_SQRT_RATIO` as a word.
pub fn max_sqrt_ratio_word() -> (r: U256)
    ensures
        r.val() == max_sqrt_ratio(),
{
    U256 {
        limb0: 6743328256752651558,
        limb1: 17280870778742802505,
        limb2: 4294805859,
        limb3: 0,
    }
}

/// `log2(sqrt(1.0001))` inverted, in Q64.64 times Q128: the factor from a
/// binary logarithm to a tick.
pub open spec fn log_sqrt10001_factor() -> int {
    255738958999603826347141
}

/// The error bound subtracted for the lower tick candidate.
pub open spec fn tick_low_offset() -> int {
    3402992956809132418596140100660247210
}

/// The error bound added for the upper tick candidate.
pub open spec fn tick_high_offset() -> int {
    291339464771989622907027621153398088495
}

/// 2^127.
pub open spec fn q127() -> nat {
    170141183460469231731687303715884105728nat
}

/// 2^64.
pub open spec fn q64() -> int {
    0x1_0000_0000_0000_0000
}

/// The fractional bits of a binary logarithm, from bit `i` down over `n`
/// bits, read off a mantissa `r` in `[2^127, 2^128)` by repeated squaring.
pub open spec fn log_fraction(r: nat, i: nat, n: nat) -> nat
    decreases n,
{
    if n == 0 {
        0
    } else {
        let sq = r * r / q127();
        if sq >= q128() {
            pow2(i) + log_fraction(sq / 2, (i - 1) as nat, (n - 1) as nat)
        } else {
            log_fraction(sq, (i - 1) as nat, (n - 1) as nat)
        }
    }
}

/// A ratio scaled to the mantissa range `[2^127, 2^128)`, given its highest
/// bit.
pub open spec fn mantissa(ratio: nat, msb: nat) -> nat {
    if msb >= 128 {
        ratio / pow2((msb - 127) as nat)
    } else {
        ratio * pow2((127 - msb) as nat)
    }
}

/// The binary logarithm of a Q128.128 ratio `price * 2^32`, in Q64.64, to
/// 14 fractional bits.
pub open spec fn log2_q64(price: nat) -> int {
    let ratio = price * q32();
    let msb = log2_floor(ratio);
    (msb - 128) * q64() + log_fraction(mantissa(ratio, msb), 63, 14)
}

/// The lower tick candidate for a price.
pub open spec fn tick_low_candidate(price: nat) -> int {
    (log2_q64(price) * log_sqrt10001_factor() - tick_low_offset()) / (q128() as int)
}

/// The upper tick candidate for a price.
pub open spec fn tick_high_candidate(price: nat) -> int {
    (log2_q64(price) * log_sqrt10001_factor() + tick_high_offset()) / (q128() as int)
}

/// What `get_tick_at_sqrt_ratio` returns: the upper candidate when its
/// price does not exceed the input, else the lower one.
pub open spec fn tick_at_sqrt_ratio_result(price: nat) -> Result<int, UniswapV3MathError> {
    if !(min_sqrt_ratio() <= price < max_sqrt_ratio()) {
        Err(UniswapV3MathError::R)
    } else {
        let low = tick_low_candidate(price);
        let high = tick_high_candidate(price);
        if low == high {
            Ok(low)
        } else {
            match sqrt_ratio_result(high) {
                Err(e) => Err(e),
                Ok(p) => if p <= price {
                    Ok(high)
                } else {
                    Ok(low)
                },
            }
        }
    }
}

/// The value of a tick result.
pub open spec fn tick_result(r: Result<i32, UniswapV3MathError>) -> Result<int, UniswapV3MathError> {
    match r {
        Ok(t) => Ok(t as int),
        Err(e) => Err(e),
    }
}

/// Squaring a mantissa and dropping 127 bits stays in a word, and halving
/// when it reaches 2^128 brings it back to the mantissa range.
proof fn lemma_square_step(r: nat)
    requires
        q127() <= r < q128(),
    ensures
        r * r < word_modulus(),
        q127() <= r * r / q127() < 2 * q128(),
        r * r / q127() >= q128() ==> q127() <= r * r / q127() / 2 < q128(),
{
    lemma_pow2_256();
    let a = q127() as int;
    let sq = r * r;
    assert(q128() == 2 * a);
    assert(word_modulus() == 4 * a * a) by {
        vstd::arithmetic::power2::lemma_pow2_adds(128, 128);
        assert(q128() * q128() == 4 * a * a) by (nonlinear_arith)
            requires
                q128() == 2 * a,
        ;
    }
    assert(a * a <= sq < 4 * a * a) by (nonlinear_arith)
        requires
            a <= r < 2 * a,
            sq == r * r,
    ;
    vstd::arithmetic::div_mod::lemma_fundamental_div_mod(sq as int, a);
    let q = sq / (a as nat);
    assert(a <= q < 4 * a) by (nonlinear_arith)
        requires
            a * a <= sq < 4 * a * a,
            sq == a * q + sq % (a as nat),
            0 <= sq % (a as nat) < a,
            a > 0,
    ;
}

/// The mantissa of a ratio lies in `[2^127, 2^128)`.
proof fn lemma_mantissa_range(ratio: nat, msb: nat)
    requires
        ratio > 0,
        msb == log2_floor(ratio),
        msb < 256,
    ensures
        q127() <= mantissa(ratio, msb) < q128(),
        msb < 128 ==> ratio * pow2((127 - msb) as nat) < word_modulus(),
{
    lemma_pow2_256();
    lemma_log2_floor_bounds(ratio);
    vstd::arithmetic::power2::lemma_pow2_unfold(128);
    vstd::arithmetic::power2::lemma_pow2_unfold(msb + 1);
    if msb >= 128 {
        let k = (msb - 127) as nat;
        let d = pow2(k);
        vstd::arithmetic::power2::lemma_pow2_adds(127, k);
        vstd::arithmetic::power2::lemma_pow2_adds(128, k);
        vstd::arithmetic::power2::lemma_pow2_pos(k);
        vstd::arithmetic::div_mod::lemma_fundamental_div_mod(ratio as int, d as int);
        let q = ratio / d;
        assert(q127() <= q < q128()) by (nonlinear_arith)
            requires
                q127() * d <= ratio < q128() * d,
                ratio == d * q + ratio % d,
                0 <= ratio % d < d,
                d > 0,
        ;
    } else {
        let k = (127 - msb) as nat;
        let d = pow2(k);
        vstd::arithmetic::power2::lemma_pow2_adds(msb, k);
        vstd::arithmetic::power2::lemma_pow2_adds(msb + 1, k);
        assert(q127() <= ratio * d < q128()) by (nonlinear_arith)
            requires
                pow2(msb) <= ratio < pow2(msb + 1),
                pow2(msb) * d == q127(),
                pow2(msb + 1) * d == q128(),
        ;
    }
}

/// The tick whose price is the greatest one not above the input, within
/// the rounding of the logarithm: the input must lie in
/// `[MIN_SQRT_RATIO, MAX_SQRT_RATIO)`.
pub fn get_tick_at_sqrt_ratio(sqrt_price_x_96: U256) -> (r: Result<i32, UniswapV3MathError>)
    ensures
        tick_result(r) == tick_at_sqrt_ratio_result(sqrt_price_x_96.val()),
{
    if !(sqrt_price_x_96.ge(&min_sqrt_ratio_word()) && sqrt_price_x_96.lt(&max_sqrt_ratio_word())) {
        return Err(UniswapV3MathError::R);
    }
    let x = Ghost(sqrt_price_x_96.val());
    proof {
        lemma_pow2_256();
        vstd::arithmetic::power2::lemma2_to64();
        assert(x@ * q32() < word_modulus()) by (nonlinear_arith)
            requires
                x@ < max_sqrt_ratio(),
                q32() == 0x1_0000_0000nat,
                max_sqrt_ratio() == 1461446703485210103287273052203988822378723970342nat,
                word_modulus() == 0x1_0000_0000_0000_0000_0000_0000_0000_0000_0000_0000_0000_0000_0000_0000_0000_0000nat,
        ;
        vstd::arithmetic::div_mod::lemma_small_mod(x@ * q32(), word_modulus());
    }
    let ratio = shl(sqrt_price_x_96, 32);
    let msb = match most_significant_bit(ratio) {
        Ok(m) => m,
        Err(e) => return Err(e),
    };
    let ratio_v = Ghost(ratio.val());
    proof {
        lemma_log2_floor_bounds(ratio_v@);
        // 2^64 <= ratio < 2^192
        assert(0x1_0000_0000_0000_0000nat <= ratio_v@ < 0x1_0000_0000_0000_0000_0000_0000_0000_0000_0000_0000_0000_0000nat) by (nonlinear_arith)
            requires
                ratio_v@ == x@ * 0x1_0000_0000nat,
                4295128739nat <= x@ < 1461446703485210103287273052203988822378723970342nat,
        ;
        vstd::arithmetic::power2::lemma_pow2_adds(64, 64);
        vstd::arithmetic::power2::lemma_pow2_adds(128, 64);
        if msb < 64 {
            vstd::arithmetic::power2::lemma_pow2_strictly_increases(msb as nat + 1, 64);
        }
        if msb > 191 {
            vstd::arithmetic::power2::lemma_pow2_strictly_increases(192, msb as nat);
        }
        lemma_mantissa_range(ratio_v@, msb as nat);
    }
    let mut r = if msb >= 128 {
        shr(ratio, (msb - 127) as usize)
    } else {
        proof {
            vstd::arithmetic::div_mod::lemma_small_mod(
                ratio_v@ * pow2((127 - msb) as nat),
                word_modulus(),
            );
        }
        shl(ratio, (127 - msb) as usize)
    };
    let r0 = Ghost(r.val());
    let mut fraction: u64 = 0;
    let mut i: u32 = 63;
    proof {
        vstd::arithmetic::power2::lemma_pow2_adds(1, 63);
    }
    while i >= 50
        invariant
            49 <= i <= 63,
            q127() <= r.val() < q128(),
            pow2(128) == q128(),
            pow2(64) == 0x1_0000_0000_0000_0000nat,
            fraction + pow2(i as nat + 1) <= 0x1_0000_0000_0000_0000nat,
            fraction + log_fraction(r.val(), i as nat, (i - 49) as nat) == log_fraction(
                r0@,
                63,
                14,
            ),
        decreases i,
    {
        proof {
            lemma_square_step(r.val());
            vstd::arithmetic::div_mod::lemma_small_mod(r.val() * r.val(), word_modulus());
            vstd::arithmetic::power2::lemma_pow2_adds(127, 1);
            vstd::arithmetic::power2::lemma_pow2_unfold(i as nat + 1);
            vstd::arithmetic::power2::lemma2_to64();
            assert(pow2(127) == q127());
        }
        let sq = shr(wrapping_mul(r, r), 127);
        let f = shr(sq, 128);
        proof {
            vstd::arithmetic::div_mod::lemma_div_is_ordered_by_denominator(sq.val() as int, 1, q128() as int);
            if sq.val() >= q128() {
                vstd::arithmetic::div_mod::lemma_fundamental_div_mod(sq.val() as int, q128() as int);
            } else {
                vstd::arithmetic::div_mod::lemma_small_mod(sq.val(), q128());
            }
        }
        if !f.is_zero() {
            proof {
                assert(sq.val() >= q128()) by {
                    if sq.val() < q128() {
                        assert(sq.val() / q128() == 0) by {
                            vstd::arithmetic::div_mod::lemma_basic_div(sq.val() as int, q128() as int);
                        }
                    }
                }
                vstd::arithmetic::power2::lemma_pow2_strictly_increases(i as nat, 64);
                assert((1u64 << i) == pow2(i as nat)) by {
                    vstd::bits::lemma_u64_shl_is_mul(1, i as u64);
                }
            }
            fraction = fraction + (1u64 << i);
            r = shr(sq, 1);
        } else {
            proof {
                if sq.val() >= q128() {
                    vstd::arithmetic::div_mod::lemma_div_is_ordered(q128() as int, sq.val() as int, q128() as int);
                }
            }
            r = sq;
        }
        i = i - 1;
    }
    let log_2: i128 = ((msb as i128) - 128) * 0x1_0000_0000_0000_0000i128 + fraction as i128;
    proof {
        assert(log_fraction(r.val(), 49, 0) == 0);
        assert(log_2 == log2_q64(x@));
    }
    let log_2_word = I256::from_i128(log_2);
    let log_sqrt10001 = I256::from_raw(
        wrapping_mul(
            log_2_word.raw,
            U256 { limb0: 11745905768312294533, limb1: 13863, limb2: 0, limb3: 0 },
        ),
    );
    proof {
        lemma_raw_is_val_mod(log_2_word);
        vstd::arithmetic::div_mod::lemma_mul_mod_noop_left(
            log_2 as int,
            log_sqrt10001_factor(),
            word_modulus() as int,
        );
        let lf = log_2 as int;
        assert(-4722366482869645213696int <= lf <= 4722366482869645213696int);
        assert(-1427247692705959881058285969449495136382746624int <= lf * log_sqrt10001_factor() <= 1427247692705959881058285969449495136382746624int) by (nonlinear_arith)
            requires
                -4722366482869645213696int <= lf <= 4722366482869645213696int,
                log_sqrt10001_factor() == 255738958999603826347141int,
        ;
        assert(half_modulus() == 57896044618658097711785492504343953926634992332820282019728792003956564819968nat);
        lemma_signed_wrap(log_2 * log_sqrt10001_factor(), log_sqrt10001);
    }
    let low_offset = U256 {
        limb0: 6552757943157144234,
        limb1: 184476617836266586,
        limb2: 0,
        limb3: 0,
    };
    let high_offset = U256 {
        limb0: 4998474450511881007,
        limb1: 15793544031827761793,
        limb2: 0,
        limb3: 0,
    };
    let low_sum = I256::from_raw(wrapping_sub(log_sqrt10001.raw, low_offset));
    let high_sum = I256::from_raw(wrapping_add(log_sqrt10001.raw, high_offset));
    proof {
        lemma_raw_is_val_mod(log_sqrt10001);
        vstd::arithmetic::div_mod::lemma_sub_mod_noop(
            log_sqrt10001.val(),
            tick_low_offset(),
            word_modulus() as int,
        );
        vstd::arithmetic::div_mod::lemma_add_mod_noop(
            log_sqrt10001.val(),
            tick_high_offset(),
            word_modulus() as int,
        );
        lemma_signed_wrap(log_sqrt10001.val() - tick_low_offset(), low_sum);
        lemma_signed_wrap(log_sqrt10001.val() + tick_high_offset(), high_sum);
    }
    let low_shifted = arithmetic_shr(low_sum, 128);
    let high_shifted = arithmetic_shr(high_sum, 128);
    proof {
        assert(-0x10_0000 <= low_shifted.val() <= 0x10_0000);
        assert(-0x10_0000 <= high_shifted.val() <= 0x10_0000);
    }
    let tick_low = low_shifted.to_i32();
    let tick_high = high_shifted.to_i32();
    if tick_low == tick_high {
        Ok(tick_low)
    } else {
        match get_sqrt_ratio_at_tick(tick_high) {
            Err(e) => Err(e),
            Ok(p) => if p.le(&sqrt_price_x_96) {
                Ok(tick_high)
            } else {
                Ok(tick_low)
            },
        }
    }
}

} // verus!
