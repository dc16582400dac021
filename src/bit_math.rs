//! Positions of the highest and lowest set bits of a word.
use vstd::prelude::*;
use vstd::arithmetic::power2::{pow2, lemma_pow2_strictly_increases};
use crate::bits::{
    log2_floor, trailing_zeros_of, lemma_log2_floor_bounds, lemma_log2_floor_unique,
    lemma_trailing_zeros_facts, lemma_trailing_zeros_unique,
};
use crate::error::UniswapV3MathError;
use crate::u256::{U256, leading_zeros, trailing_zeros, lemma_word_limbs, lemma_pow2_256};

verus! {

/// The index of the highest set bit; zero has none.
pub fn most_significant_bit(x: U256) -> (r: Result<u8, UniswapV3MathError>)
    ensures
        x.val() == 0 ==> r == Err::<u8, UniswapV3MathError>(UniswapV3MathError::ZeroValue),
        x.val() != 0 ==> r == Ok::<u8, UniswapV3MathError>(log2_floor(x.val()) as u8),
        x.val() != 0 ==> log2_floor(x.val()) < 256,
{
    if x.is_zero() {
        return Err(UniswapV3MathError::ZeroValue);
    }
    proof {
        lemma_log2_below_256(x);
    }
    let zeros = leading_zeros(x);
    Ok((255 - zeros) as u8)
}

/// The index of the lowest set bit; zero has none.
pub fn least_significant_bit(x: U256) -> (r: Result<u8, UniswapV3MathError>)
    ensures
        x.val() == 0 ==> r == Err::<u8, UniswapV3MathError>(UniswapV3MathError::ZeroValue),
        x.val() != 0 ==> r == Ok::<u8, UniswapV3MathError>(trailing_zeros_of(x.val()) as u8),
        x.val() != 0 ==> trailing_zeros_of(x.val()) < 256,
{
    if x.is_zero() {
        return Err(UniswapV3MathError::ZeroValue);
    }
    proof {
        lemma_word_limbs(x);
        lemma_pow2_256();
        lemma_trailing_zeros_facts(x.val());
        if trailing_zeros_of(x.val()) >= 256 {
            if trailing_zeros_of(x.val()) > 256 {
                lemma_pow2_strictly_increases(256, trailing_zeros_of(x.val()));
            }
        }
    }
    let zeros = trailing_zeros(x);
    Ok(zeros as u8)
}

/// A power of two has its highest and its lowest set bit at its exponent,
/// so both scans of `2^i` return `i`; zero has neither.
pub proof fn lemma_bit_scan_of_power_of_two(x: U256, i: nat)
    requires
        i < 256,
        x.val() == pow2(i),
    ensures
        log2_floor(x.val()) == i,
        trailing_zeros_of(x.val()) == i,
{
    vstd::arithmetic::power2::lemma_pow2_unfold(i + 1);
    vstd::arithmetic::power2::lemma_pow2_pos(i);
    lemma_log2_floor_unique(x.val(), i);
    vstd::arithmetic::div_mod::lemma_mod_self_0(pow2(i) as int);
    vstd::arithmetic::div_mod::lemma_div_by_self(pow2(i) as int);
    lemma_trailing_zeros_unique(x.val(), i);
}

/// Every nonzero word has its highest bit below 256.
pub proof fn lemma_log2_below_256(x: U256)
    requires
        x.val() != 0,
    ensures
        log2_floor(x.val()) < 256,
{
    lemma_word_limbs(x);
    lemma_pow2_256();
    lemma_log2_floor_bounds(x.val());
    if log2_floor(x.val()) > 256 {
        lemma_pow2_strictly_increases(256, log2_floor(x.val()));
    }
}

} // verus!
