//! Division rounding up, without a check of the divisor.
use vstd::prelude::*;
use crate::u256::{U256, div, rem, wrapping_add, word_modulus, lemma_word_limbs};

verus! {

/// The quotient rounded up: `a / b`, plus one when a remainder is left.
pub open spec fn div_up(a: nat, b: nat) -> nat
    recommends
        b != 0,
{
    a / b + if a % b == 0 { 0nat } else { 1nat }
}

/// `⌈a / b⌉`. The divisor is the caller's to check.
pub fn div_rounding_up(a: U256, b: U256) -> (r: U256)
    requires
        b.val() != 0,
    ensures
        r.val() == div_up(a.val(), b.val()),
{
    let quotient = div(a, b);
    let remainder = rem(a, b);
    if remainder.is_zero() {
        quotient
    } else {
        proof {
            lemma_word_limbs(a);
            if b.val() == 1 {
                assert(a.val() % 1 == 0);
            } else {
                assert(a.val() / b.val() <= a.val() / 2) by {
                    vstd::arithmetic::div_mod::lemma_div_is_ordered_by_denominator(
                        a.val() as int,
                        2,
                        b.val() as int,
                    );
                }
            }
            vstd::arithmetic::div_mod::lemma_small_mod(
                (a.val() / b.val() + 1) as nat,
                word_modulus(),
            );
        }
        wrapping_add(quotient, U256::one())
    }
}

} // verus!
