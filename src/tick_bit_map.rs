//! Locating a tick's bit in the bitmap, and searching one bitmap word for
//! the nearest initialized tick.
use vstd::prelude::*;
use vstd::arithmetic::power2::{pow2, lemma_pow2_pos, lemma_pow2_strictly_increases, lemma_pow2_adds};
use vstd::arithmetic::div_mod::{lemma_small_mod, lemma_fundamental_div_mod, lemma_mod_multiples_basic};
use crate::bit_math::{most_significant_bit, least_significant_bit};
use crate::bits::{
    log2_floor, trailing_zeros_of, lemma_and_low_mask, lemma_and_high_mask,
    lemma_log2_floor_bounds, lemma_trailing_zeros_facts,
};
use crate::error::UniswapV3MathError;
use crate::u256::{
    U256, word_modulus, wrapping_add, wrapping_sub, shl, bitand, not, lemma_word_limbs,
    lemma_pow2_256,
};

verus! {

/// The bit for compressed tick `t` lives in word `t / 256` (rounded down),
/// at bit `t mod 256`.
pub fn position(tick: i32) -> (r: (i16, u8))
    requires
        -8388608 <= tick < 8388608,
    ensures
        r.0 as int == tick as int / 256,
        r.1 as int == tick as int % 256,
{
    let word_pos = tick >> 8u32;
    let bit_pos = tick & 255i32;
    assert(word_pos as int == tick as int / 256 && bit_pos as int == tick as int % 256)
        by (bit_vector)
        requires
            word_pos == tick >> 8u32,
            bit_pos == tick & 255i32,
    ;
    (word_pos as i16, bit_pos as u8)
}

/// The search within one word: to the left of `bit_pos` (inclusive) when
/// `lte`, else from `bit_pos` rightwards; an empty stretch ends at the
/// word's edge.
pub open spec fn next_index_in_word(lte: bool, compressed: int, bit_pos: nat, word: nat) -> (
    int,
    bool,
) {
    if lte {
        let masked = word % pow2(bit_pos + 1);
        if masked != 0 {
            (compressed - (bit_pos - log2_floor(masked)), true)
        } else {
            (compressed - bit_pos, false)
        }
    } else {
        let masked = (word - word % pow2(bit_pos)) as nat;
        if masked != 0 {
            (compressed + 1 + (trailing_zeros_of(masked) - bit_pos), true)
        } else {
            (compressed + 1 + (255 - bit_pos), false)
        }
    }
}

/// The search's result as a tick: the compressed index times the spacing.
pub open spec fn next_in_word(
    tick_spacing: int,
    lte: bool,
    compressed: int,
    bit_pos: nat,
    word: nat,
) -> (int, bool) {
    let (k, initialized) = next_index_in_word(lte, compressed, bit_pos, word);
    (k * tick_spacing, initialized)
}

/// What the word search returns: its result where that tick fits in 32
/// bits, else a failure.
pub open spec fn next_in_word_result(
    tick_spacing: int,
    lte: bool,
    compressed: int,
    bit_pos: nat,
    word: nat,
) -> Result<(i32, bool), UniswapV3MathError> {
    let (next, initialized) = next_in_word(tick_spacing, lte, compressed, bit_pos, word);
    if i32::MIN <= next <= i32::MAX {
        Ok((next as i32, initialized))
    } else {
        Err(UniswapV3MathError::T)
    }
}

/// A positive number below `2^(k+1)` has its highest bit at most at `k`.
proof fn lemma_log2_at_most(x: nat, k: nat)
    requires
        0 < x < pow2(k + 1),
    ensures
        log2_floor(x) <= k,
{
    lemma_log2_floor_bounds(x);
    if log2_floor(x) > k {
        if log2_floor(x) > k + 1 {
            lemma_pow2_strictly_increases(k + 1, log2_floor(x));
        }
    }
}

/// A positive multiple of `2^k` has its lowest bit at least at `k`.
proof fn lemma_trailing_at_least(x: nat, k: nat)
    requires
        x > 0,
        x % pow2(k) == 0,
    ensures
        trailing_zeros_of(x) >= k,
{
    lemma_trailing_zeros_facts(x);
    let t = trailing_zeros_of(x);
    if t < k {
        let d = (k - t - 1) as nat;
        lemma_pow2_adds(t, (k - t) as nat);
        lemma_pow2_adds(1, d);
        vstd::arithmetic::power2::lemma2_to64();
        lemma_pow2_pos(t);
        lemma_pow2_pos(d);
        lemma_pow2_pos(k);
        lemma_fundamental_div_mod(x as int, pow2(k) as int);
        let j = x / pow2(k);
        assert(x == pow2(t) * (2 * (pow2(d) * j))) by (nonlinear_arith)
            requires
                x == pow2(k) * j + 0,
                pow2(k) == pow2(t) * pow2((k - t) as nat),
                pow2((k - t) as nat) == pow2(1) * pow2(d),
                pow2(1) == 2,
                (k - t) as nat == 1 + d,
        ;
        vstd::arithmetic::div_mod::lemma_div_multiples_vanish(
            (2 * (pow2(d) * j)) as int,
            pow2(t) as int,
        );
        lemma_mod_multiples_basic((pow2(d) * j) as int, 2);
        assert((2 * (pow2(d) * j)) % 2 == 0) by (nonlinear_arith);
    }
}

/// The highest set bit of the low `bit_pos + 1` bits of a word is a set bit
/// of the word.
proof fn lemma_low_top_bit_is_set(word: nat, bit_pos: nat)
    requires
        word % pow2(bit_pos + 1) != 0,
    ensures
        log2_floor(word % pow2(bit_pos + 1)) <= bit_pos,
        crate::bits::bit_set(word, log2_floor(word % pow2(bit_pos + 1))),
{
    let n = bit_pos + 1;
    let p = pow2(n);
    let masked = word % p;
    lemma_pow2_pos(n);
    lemma_log2_at_most(masked, bit_pos);
    let k = log2_floor(masked);
    lemma_log2_floor_bounds(masked);
    let pk = pow2(k);
    lemma_pow2_pos(k);
    let e = (n - k) as nat;
    lemma_pow2_adds(k, e);
    vstd::arithmetic::power2::lemma_pow2_unfold(e);
    lemma_pow2_pos((e - 1) as nat);
    lemma_pow2_adds(k, 1);
    vstd::arithmetic::power2::lemma2_to64();
    lemma_fundamental_div_mod(word as int, p as int);
    let a = word / p;
    // word / 2^k == 2^(n-k) * a + masked / 2^k, and 2^(n-k) is even
    let half = pow2((e - 1) as nat);
    assert(word == pk * (2 * half * a) + masked) by (nonlinear_arith)
        requires
            word == p * a + masked,
            p == pk * pow2(e),
            pow2(e) == 2 * half,
    ;
    assert(masked / pk == 1) by {
        vstd::arithmetic::div_mod::lemma_fundamental_div_mod(masked as int, pk as int);
        assert(pow2(k + 1) == 2 * pk);
        let q = masked / pk;
        assert(q == 1) by (nonlinear_arith)
            requires
                pk <= masked < 2 * pk,
                masked == pk * q + masked % pk,
                0 <= masked % pk < pk,
        ;
    }
    vstd::arithmetic::div_mod::lemma_fundamental_div_mod(masked as int, pk as int);
    let rm = masked % pk;
    let x = 2 * (half * a) + 1;
    assert(word == pk * x + rm) by (nonlinear_arith)
        requires
            word == pk * (2 * half * a) + masked,
            masked == pk * 1 + rm,
            x == 2 * (half * a) + 1,
    ;
    vstd::arithmetic::div_mod::lemma_div_multiples_vanish_fancy(x as int, rm as int, pk as int);
    vstd::arithmetic::div_mod::lemma_fundamental_div_mod_converse(x as int, 2, (half * a) as int, 1);
}

/// The lowest set bit of a word with its low `bit_pos` bits cleared is a set
/// bit of the word.
proof fn lemma_high_low_bit_is_set(word: nat, bit_pos: nat, t: nat)
    requires
        word - word % pow2(bit_pos) > 0,
        t == trailing_zeros_of((word - word % pow2(bit_pos)) as nat),
        t >= bit_pos,
    ensures
        crate::bits::bit_set(word, t),
{
    let p = pow2(bit_pos);
    let masked = (word - word % p) as nat;
    lemma_pow2_pos(bit_pos);
    lemma_trailing_zeros_facts(masked);
    let pt = pow2(t);
    lemma_pow2_pos(t);
    if t > bit_pos {
        lemma_pow2_strictly_increases(bit_pos, t);
    }
    let r = word % p;
    vstd::arithmetic::div_mod::lemma_fundamental_div_mod(masked as int, pt as int);
    let q = masked / pt;
    assert(word == pt * q + r);
    assert(r < pt);
    vstd::arithmetic::div_mod::lemma_fundamental_div_mod_converse(word as int, pt as int, q as int, r as int);
}

/// The nearest initialized tick within the word that holds the bit of
/// `compressed` (lte) or of `compressed + 1` (not lte), given that word.
pub fn next_initialized_tick_within_one_word(
    tick_spacing: i32,
    lte: bool,
    compressed: i32,
    bit_pos: u8,
    word: U256,
) -> (r: Result<(i32, bool), UniswapV3MathError>)
    ensures
        r == next_in_word_result(
            tick_spacing as int,
            lte,
            compressed as int,
            bit_pos as nat,
            word.val(),
        ),
        // The result stays within the word; where nothing is initialized it
        // is the word's edge, and where something is, that bit is set.
        ({
            let (k, initialized) = next_index_in_word(
                lte,
                compressed as int,
                bit_pos as nat,
                word.val(),
            );
            &&& lte ==> compressed - bit_pos <= k <= compressed
            &&& !lte ==> compressed + 1 <= k <= compressed + 256 - bit_pos
            &&& (!initialized && lte) ==> k == compressed - bit_pos
            &&& (!initialized && !lte) ==> k == compressed + 256 - bit_pos
            &&& (initialized && lte) ==> crate::bits::bit_set(
                word.val(),
                (bit_pos - (compressed - k)) as nat,
            )
            &&& (initialized && !lte) ==> crate::bits::bit_set(
                word.val(),
                (bit_pos + (k - compressed - 1)) as nat,
            )
        }),
{
    proof {
        lemma_pow2_256();
        lemma_word_limbs(word);
        lemma_pow2_pos(bit_pos as nat);
        if (bit_pos as nat) < 255 {
            lemma_pow2_strictly_increases(bit_pos as nat + 1, 256);
        }
        lemma_pow2_strictly_increases(bit_pos as nat, 256);
        vstd::arithmetic::power2::lemma_pow2_unfold(bit_pos as nat + 1);
        lemma_small_mod(pow2(bit_pos as nat), word_modulus());
    }
    let one = U256::one();
    let bit = shl(one, bit_pos as usize);
    let c = compressed as i64;
    let (index, initialized): (i64, bool) = if lte {
        let mask = wrapping_add(wrapping_sub(bit, one), bit);
        proof {
            lemma_small_mod((pow2(bit_pos as nat) - 1) as nat, word_modulus());
            lemma_small_mod((pow2(bit_pos as nat + 1) - 1) as nat, word_modulus());
            lemma_and_low_mask(word.val(), bit_pos as nat + 1);
        }
        let masked = bitand(word, mask);
        let initialized = !masked.is_zero();
        if initialized {
            let msb = match most_significant_bit(masked) {
                Ok(m) => m,
                Err(e) => return Err(e),
            };
            proof {
                lemma_log2_at_most(masked.val(), bit_pos as nat);
                lemma_low_top_bit_is_set(word.val(), bit_pos as nat);
            }
            (c - (bit_pos - msb) as i64, true)
        } else {
            (c - bit_pos as i64, false)
        }
    } else {
        let mask = not(wrapping_sub(bit, one));
        proof {
            lemma_small_mod((pow2(bit_pos as nat) - 1) as nat, word_modulus());
            lemma_and_high_mask(word.val(), bit_pos as nat, 256);
        }
        let masked = bitand(word, mask);
        proof {
            assert(bit.val() == pow2(bit_pos as nat));
            assert(mask.val() == (pow2(256) - pow2(bit_pos as nat)) as nat);
            assert(masked.val() == word.val() - word.val() % pow2(bit_pos as nat));
        }
        let initialized = !masked.is_zero();
        if initialized {
            let lsb = match least_significant_bit(masked) {
                Ok(l) => l,
                Err(e) => return Err(e),
            };
            proof {
                vstd::arithmetic::div_mod::lemma_fundamental_div_mod(
                    word.val() as int,
                    pow2(bit_pos as nat) as int,
                );
                lemma_mod_multiples_basic(
                    (word.val() / pow2(bit_pos as nat)) as int,
                    pow2(bit_pos as nat) as int,
                );
                let p = pow2(bit_pos as nat) as int;
                let q = (word.val() / pow2(bit_pos as nat)) as int;
                let w = word.val() as int;
                let rm = (word.val() % pow2(bit_pos as nat)) as int;
                let mv = masked.val() as int;
                assert(w == p * q + rm);
                assert(mv == w - rm);
                assert(mv == q * p) by (nonlinear_arith)
                    requires
                        w == p * q + rm,
                        mv == w - rm,
                ;
                lemma_trailing_at_least(masked.val(), bit_pos as nat);
                lemma_high_low_bit_is_set(word.val(), bit_pos as nat, lsb as nat);
            }
            (c + 1 + (lsb - bit_pos) as i64, true)
        } else {
            (c + 1 + (255 - bit_pos) as i64, false)
        }
    };
    let spacing = tick_spacing as i64;
    assert(-0x4000_0200_0000_0000 <= index * spacing <= 0x4000_0200_0000_0000) by (nonlinear_arith)
        requires
            -0x8000_0200 <= index <= 0x8000_0200,
            -0x8000_0000 <= spacing <= 0x8000_0000,
    ;
    let next = index * spacing;
    if next < i32::MIN as i64 || next > i32::MAX as i64 {
        return Err(UniswapV3MathError::T);
    }
    Ok((next as i32, initialized))
}

} // verus!
