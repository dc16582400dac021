//! The sparse bitmap of initialized ticks: one 256-bit word per 16-bit
//! word index, an absent word reading as zero.
use std::collections::HashMap;
use vstd::prelude::*;
use vstd::arithmetic::power2::{pow2, lemma_pow2_pos, lemma_pow2_strictly_increases};
use vstd::arithmetic::div_mod::{lemma_small_mod, lemma_fundamental_div_mod, lemma_fundamental_div_mod_converse};
use crate::bits::bit_xor;
use crate::error::UniswapV3MathError;
use crate::tick_bit_map::next_index_in_word;
use crate::u256::{U256, word_modulus, shl, bitxor, lemma_pow2_256};

pub use crate::tick_bit_map::position;

verus! {

broadcast use vstd::std_specs::hash::group_hash_axioms;

/// The word stored at an index, zero where none is.
pub open spec fn word_at(bitmap: Map<i16, U256>, word_pos: i16) -> nat {
    if bitmap.contains_key(word_pos) {
        bitmap[word_pos].val()
    } else {
        0
    }
}

fn load_word(tick_bitmap: &HashMap<i16, U256>, word_pos: i16) -> (r: U256)
    ensures
        r.val() == word_at(tick_bitmap@, word_pos),
{
    match tick_bitmap.get(&word_pos) {
        Some(w) => *w,
        None => U256::zero(),
    }
}

/// `tick` divided by a positive spacing, rounded down, and whether the
/// division is exact.
pub fn compress(tick: i32, tick_spacing: i32) -> (r: (i32, bool))
    requires
        tick_spacing > 0,
    ensures
        r.0 as int == tick as int / tick_spacing as int,
        r.1 == ((tick as int) % (tick_spacing as int) == 0),
{
    let s = tick_spacing as u32;
    if tick >= 0 {
        let n = tick as u32;
        proof {
            vstd::arithmetic::div_mod::lemma_fundamental_div_mod(n as int, s as int);
            vstd::arithmetic::div_mod::lemma_fundamental_div_mod_converse(
                tick as int,
                tick_spacing as int,
                (n / s) as int,
                (n % s) as int,
            );
        }
        ((n / s) as i32, n % s == 0)
    } else {
        let n = (-(tick as i64)) as u32;
        let qn = n / s;
        let rn = n % s;
        proof {
            vstd::arithmetic::div_mod::lemma_fundamental_div_mod(n as int, s as int);
            assert(qn <= n) by {
                vstd::arithmetic::div_mod::lemma_div_is_ordered_by_denominator(n as int, 1, s as int);
            }
        }
        let t = Ghost(tick as int);
        let si = Ghost(s as int);
        proof {
            assert(n as int == -t@);
            assert(t@ == si@ * (-(qn as int)) - (rn as int)) by (nonlinear_arith)
                requires
                    n as int == -t@,
                    n as int == si@ * (qn as int) + (rn as int),
            ;
            assert(t@ == si@ * (-(qn as int) - 1) + (si@ - rn)) by (nonlinear_arith)
                requires
                    t@ == si@ * (-(qn as int)) - (rn as int),
            ;
        }
        if rn == 0 {
            proof {
                vstd::arithmetic::div_mod::lemma_fundamental_div_mod_converse(
                    tick as int,
                    tick_spacing as int,
                    -(qn as int),
                    0,
                );
            }
            (-(qn as i64) as i32, true)
        } else {
            proof {
                vstd::arithmetic::div_mod::lemma_fundamental_div_mod_converse(
                    tick as int,
                    tick_spacing as int,
                    -(qn as int) - 1,
                    tick_spacing - rn,
                );
                assert(s >= 2) by {
                    if s == 1 {
                        assert(n % 1 == 0);
                    }
                }
                vstd::arithmetic::div_mod::lemma_div_is_ordered_by_denominator(n as int, 2, s as int);
            }
            ((-(qn as i64) - 1) as i32, false)
        }
    }
}

/// `|x|`.
pub open spec fn abs_int(x: int) -> int {
    if x < 0 {
        -x
    } else {
        x
    }
}

/// Whether the spacing, of either sign, divides the tick.
pub open spec fn is_multiple(tick: int, tick_spacing: int) -> bool {
    tick % abs_int(tick_spacing) == 0
}

/// The tick divided by its spacing, of either sign; meant for exact
/// multiples.
pub open spec fn spaced_index(tick: int, tick_spacing: int) -> int {
    if tick_spacing > 0 {
        tick / tick_spacing
    } else {
        -(tick / (-tick_spacing))
    }
}

/// Whether `tick` is a multiple of a nonzero spacing, and the quotient when
/// it is.
fn exact_quotient(tick: i32, tick_spacing: i32) -> (r: (bool, i32))
    requires
        tick_spacing != 0,
        is_multiple(tick as int, tick_spacing as int) ==> -8388608 <= spaced_index(
            tick as int,
            tick_spacing as int,
        ) < 8388608,
    ensures
        r.0 == is_multiple(tick as int, tick_spacing as int),
        r.0 ==> r.1 as int == spaced_index(tick as int, tick_spacing as int),
{
    let n: u32 = if tick < 0 {
        (-(tick as i64)) as u32
    } else {
        tick as u32
    };
    let s: u32 = if tick_spacing < 0 {
        (-(tick_spacing as i64)) as u32
    } else {
        tick_spacing as u32
    };
    let t = Ghost(tick as int);
    let si = Ghost(s as int);
    proof {
        lemma_fundamental_div_mod(n as int, s as int);
        let q = (n / s) as int;
        let rm = (n % s) as int;
        if tick >= 0 {
            assert(t@ == q * si@ + rm) by (nonlinear_arith)
                requires
                    n as int == si@ * q + rm,
                    t@ == n as int,
            ;
            lemma_fundamental_div_mod_converse(t@, si@, q, rm);
        } else {
            if rm == 0 {
                assert(t@ == (-q) * si@) by (nonlinear_arith)
                    requires
                        n as int == si@ * q + rm,
                        rm == 0,
                        t@ == -(n as int),
                ;
                lemma_fundamental_div_mod_converse(t@, si@, -q, 0);
            } else {
                assert(t@ == (-q - 1) * si@ + (si@ - rm)) by (nonlinear_arith)
                    requires
                        n as int == si@ * q + rm,
                        t@ == -(n as int),
                ;
                lemma_fundamental_div_mod_converse(t@, si@, -q - 1, si@ - rm);
            }
        }
    }
    let exact = n % s == 0;
    if !exact {
        return (false, 0);
    }
    let q = (n / s) as i64;
    let negative = (tick < 0) != (tick_spacing < 0);
    proof {
        if tick_spacing > 0 {
            assert(si@ == tick_spacing);
        } else {
            assert(si@ == -tick_spacing);
        }
    }
    if negative {
        (true, (-q) as i32)
    } else {
        (true, q as i32)
    }
}

/// Flips the initialized state of a tick, which must be a multiple of the
/// tick spacing; the spacing may have either sign but not be zero.
pub fn flip_tick(tick_bitmap: &mut HashMap<i16, U256>, tick: i32, tick_spacing: i32) -> (r: Result<
    (),
    UniswapV3MathError,
>)
    requires
        tick_spacing != 0,
        is_multiple(tick as int, tick_spacing as int) ==> -8388608 <= spaced_index(
            tick as int,
            tick_spacing as int,
        ) < 8388608,
    ensures
        !is_multiple(tick as int, tick_spacing as int) ==> r == Err::<(), UniswapV3MathError>(
            UniswapV3MathError::TickSpacingError,
        ) && final(tick_bitmap)@ == old(tick_bitmap)@,
        is_multiple(tick as int, tick_spacing as int) ==> ({
            let compressed = spaced_index(tick as int, tick_spacing as int);
            let word_pos = (compressed / 256) as i16;
            let bit_pos = (compressed % 256) as nat;
            &&& r is Ok
            &&& final(tick_bitmap)@.dom() == old(tick_bitmap)@.dom().insert(word_pos)
            &&& final(tick_bitmap)@.remove(word_pos) == old(tick_bitmap)@.remove(word_pos)
            &&& word_at(final(tick_bitmap)@, word_pos) == bit_xor(
                word_at(old(tick_bitmap)@, word_pos),
                pow2(bit_pos),
            )
        }),
{
    let (exact, compressed) = exact_quotient(tick, tick_spacing);
    if !exact {
        return Err(UniswapV3MathError::TickSpacingError);
    }
    let (word_pos, bit_pos) = position(compressed);
    proof {
        lemma_pow2_256();
        lemma_pow2_pos(bit_pos as nat);
        lemma_pow2_strictly_increases(bit_pos as nat, 256);
        lemma_small_mod(pow2(bit_pos as nat), word_modulus());
    }
    let mask = shl(U256::one(), bit_pos as usize);
    let word = load_word(tick_bitmap, word_pos);
    tick_bitmap.insert(word_pos, bitxor(word, mask));
    proof {
        assert(final(tick_bitmap)@.remove(word_pos) =~= old(tick_bitmap)@.remove(word_pos));
    }
    Ok(())
}

/// Whether a search from `tick` stays within the 16-bit word indices: the
/// spacing is positive and the compressed tick and the one after it have
/// word indices in range.
pub open spec fn search_in_range(tick: int, tick_spacing: int) -> bool {
    let compressed = tick / tick_spacing;
    &&& tick_spacing > 0
    &&& -8388608 <= compressed
    &&& compressed + 1 < 8388608
}

/// Whether a search from `tick` with this spacing is in range.
pub fn search_is_in_range(tick: i32, tick_spacing: i32) -> (r: bool)
    ensures
        r == search_in_range(tick as int, tick_spacing as int),
{
    if tick_spacing <= 0 {
        return false;
    }
    let (compressed, _) = compress(tick, tick_spacing);
    compressed >= -8388608 && compressed < 8388607
}

/// Where a search from `tick` starts: the compressed tick, and the word
/// index and bit of `compressed` (lte) or of `compressed + 1` (not lte).
pub fn search_start(tick: i32, tick_spacing: i32, lte: bool) -> (r: (i32, i16, u8))
    requires
        search_in_range(tick as int, tick_spacing as int),
    ensures
        ({
            let compressed = tick as int / tick_spacing as int;
            let start = if lte {
                compressed
            } else {
                compressed + 1
            };
            &&& r.0 as int == compressed
            &&& r.1 as int == start / 256
            &&& r.2 as int == start % 256
        }),
{
    let (compressed, _) = compress(tick, tick_spacing);
    let start = if lte {
        compressed
    } else {
        compressed + 1
    };
    let (word_pos, bit_pos) = position(start);
    (compressed, word_pos, bit_pos)
}

/// The next initialized tick at or left of `tick` (lte) or right of it (not
/// lte), within the one bitmap word the search starts in; where there is
/// none, the edge of that word, marked not initialized.
pub fn next_initialized_tick_within_one_word(
    tick_bitmap: &HashMap<i16, U256>,
    tick: i32,
    tick_spacing: i32,
    lte: bool,
) -> (r: Result<(i32, bool), UniswapV3MathError>)
    requires
        search_in_range(tick as int, tick_spacing as int),
    ensures
        ({
            let compressed = (tick as int) / (tick_spacing as int);
            let start = if lte {
                compressed
            } else {
                compressed + 1
            };
            let bit_pos = start % 256;
            let word = word_at(tick_bitmap@, (start / 256) as i16);
            let (k, initialized) = next_index_in_word(lte, compressed, bit_pos as nat, word);
            &&& r == crate::tick_bit_map::next_in_word_result(
                tick_spacing as int,
                lte,
                compressed,
                bit_pos as nat,
                word,
            )
            &&& lte ==> compressed - bit_pos <= k <= compressed
            &&& !lte ==> compressed + 1 <= k <= compressed + 256 - bit_pos
            &&& (!initialized && lte) ==> k == compressed - bit_pos
            &&& (!initialized && !lte) ==> k == compressed + 256 - bit_pos
            &&& (initialized && lte) ==> crate::bits::bit_set(
                word,
                (bit_pos - (compressed - k)) as nat,
            )
            &&& (initialized && !lte) ==> crate::bits::bit_set(
                word,
                (bit_pos + (k - compressed - 1)) as nat,
            )
        }),
{
    let (compressed, word_pos, bit_pos) = search_start(tick, tick_spacing, lte);
    let word = load_word(tick_bitmap, word_pos);
    crate::tick_bit_map::next_initialized_tick_within_one_word(
        tick_spacing,
        lte,
        compressed,
        bit_pos,
        word,
    )
}

} // verus!
