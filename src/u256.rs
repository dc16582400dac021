//! Fixed-width 256-bit words with wraparound arithmetic.
//!
//! A [`U256`] holds four little-endian 64-bit limbs; its mathematical value
//! is [`U256::val`]. The arithmetic itself is carried out by `ruint`, behind
//! small trusted wrappers whose contracts are stated over `val`.
use vstd::prelude::*;
use vstd::arithmetic::power2::*;
use vstd::arithmetic::div_mod::*;
use crate::bits::{bit_and, bit_or, bit_xor, log2_floor, trailing_zeros_of};

verus! {

/// 2^64.
pub open spec fn limb_base() -> nat {
    0x1_0000_0000_0000_0000
}

/// 2^256, the modulus of all wraparound word arithmetic.
pub open spec fn word_modulus() -> nat {
    0x1_0000_0000_0000_0000_0000_0000_0000_0000_0000_0000_0000_0000_0000_0000_0000_0000nat
}

/// 2^256 - 1, the largest word.
pub open spec fn word_max() -> nat {
    (word_modulus() - 1) as nat
}

/// An unsigned 256-bit integer.
#[derive(Clone, Copy, Debug, PartialEq, Eq, Structural)]
pub struct U256 {
    pub limb0: u64,
    pub limb1: u64,
    pub limb2: u64,
    pub limb3: u64,
}

impl U256 {
    /// The value of the word.
    pub open spec fn val(self) -> nat {
        self.limb0 as nat + limb_base() * (self.limb1 as nat + limb_base() * (self.limb2 as nat
            + limb_base() * self.limb3 as nat))
    }

    /// Builds a word from little-endian limbs.
    pub fn from_limbs(limbs: [u64; 4]) -> (r: U256)
        ensures
            r.limb0 == limbs[0],
            r.limb1 == limbs[1],
            r.limb2 == limbs[2],
            r.limb3 == limbs[3],
    {
        U256 { limb0: limbs[0], limb1: limbs[1], limb2: limbs[2], limb3: limbs[3] }
    }

    /// The little-endian limbs of the word.
    pub fn into_limbs(self) -> (r: [u64; 4])
        ensures
            r[0] == self.limb0,
            r[1] == self.limb1,
            r[2] == self.limb2,
            r[3] == self.limb3,
    {
        [self.limb0, self.limb1, self.limb2, self.limb3]
    }

    /// The word 0.
    pub fn zero() -> (r: U256)
        ensures
            r.val() == 0,
    {
        U256 { limb0: 0, limb1: 0, limb2: 0, limb3: 0 }
    }

    /// The word 1.
    pub fn one() -> (r: U256)
        ensures
            r.val() == 1,
    {
        U256 { limb0: 1, limb1: 0, limb2: 0, limb3: 0 }
    }

    /// The largest word, 2^256 - 1.
    pub fn max_value() -> (r: U256)
        ensures
            r.val() == word_max(),
    {
        let r = U256 { limb0: u64::MAX, limb1: u64::MAX, limb2: u64::MAX, limb3: u64::MAX };
        assert(r.val() == word_max()) by {
            lemma_limb_base_powers();
        }
        r
    }

    /// A 128-bit integer as a word.
    pub fn from_u128(x: u128) -> (r: U256)
        ensures
            r.val() == x,
    {
        let lo = x as u64;
        let hi = (x >> 64u128) as u64;
        assert(x == lo + 0x1_0000_0000_0000_0000 * hi) by (bit_vector)
            requires
                lo == x as u64,
                hi == (x >> 64u128) as u64,
        ;
        U256 { limb0: lo, limb1: hi, limb2: 0, limb3: 0 }
    }

    /// A 64-bit integer as a word.
    pub fn from_u64(x: u64) -> (r: U256)
        ensures
            r.val() == x,
    {
        U256 { limb0: x, limb1: 0, limb2: 0, limb3: 0 }
    }

    /// Whether the word is 0.
    pub fn is_zero(&self) -> (r: bool)
        ensures
            r == (self.val() == 0),
    {
        self.limb0 == 0 && self.limb1 == 0 && self.limb2 == 0 && self.limb3 == 0
    }

    /// The low 128 bits of the word, when the word fits in them.
    pub fn to_u128(&self) -> (r: u128)
        requires
            self.val() <= u128::MAX,
        ensures
            r == self.val(),
    {
        proof {
            lemma_word_limbs(*self);
        }
        let lo = self.limb0 as u128;
        let hi = self.limb1 as u128;
        assert(lo + 0x1_0000_0000_0000_0000 * hi <= u128::MAX) by (nonlinear_arith)
            requires
                lo < 0x1_0000_0000_0000_0000,
                hi < 0x1_0000_0000_0000_0000,
        ;
        lo + hi * 0x1_0000_0000_0000_0000
    }

    /// The low 128 bits of the word, the rest dropped.
    pub fn low_u128(&self) -> (r: u128)
        ensures
            r == self.val() % 0x1_0000_0000_0000_0000_0000_0000_0000_0000nat,
    {
        proof {
            lemma_word_limbs(*self);
        }
        let lo = self.limb0 as u128;
        let hi = self.limb1 as u128;
        assert(lo + 0x1_0000_0000_0000_0000 * hi <= u128::MAX) by (nonlinear_arith)
            requires
                lo < 0x1_0000_0000_0000_0000,
                hi < 0x1_0000_0000_0000_0000,
        ;
        lo + hi * 0x1_0000_0000_0000_0000
    }

    /// Word equality, by value.
    pub fn eq(&self, other: &U256) -> (r: bool)
        ensures
            r == (self.val() == other.val()),
    {
        proof {
            if self.val() == other.val() {
                lemma_val_injective(*self, *other);
            }
        }
        *self == *other
    }

    /// Unsigned `<`.
    pub fn lt(&self, other: &U256) -> (r: bool)
        ensures
            r == (self.val() < other.val()),
    {
        proof {
            lemma_word_limbs(*self);
            lemma_word_limbs(*other);
        }
        if self.limb3 != other.limb3 {
            self.limb3 < other.limb3
        } else if self.limb2 != other.limb2 {
            self.limb2 < other.limb2
        } else if self.limb1 != other.limb1 {
            self.limb1 < other.limb1
        } else {
            self.limb0 < other.limb0
        }
    }

    /// Unsigned `<=`.
    pub fn le(&self, other: &U256) -> (r: bool)
        ensures
            r == (self.val() <= other.val()),
    {
        !other.lt(self)
    }

    /// Unsigned `>`.
    pub fn gt(&self, other: &U256) -> (r: bool)
        ensures
            r == (self.val() > other.val()),
    {
        other.lt(self)
    }

    /// Unsigned `>=`.
    pub fn ge(&self, other: &U256) -> (r: bool)
        ensures
            r == (self.val() >= other.val()),
    {
        !self.lt(other)
    }
}

/// Relies on ruint's `Uint::wrapping_add`: the sum modulo 2^256.
#[verifier::external_body]
pub(crate) fn wrapping_add(a: U256, b: U256) -> (r: U256)
    ensures
        r.val() == (a.val() + b.val()) % word_modulus(),
{
    let x = ruint::aliases::U256::from_limbs([a.limb0, a.limb1, a.limb2, a.limb3]);
    let y = ruint::aliases::U256::from_limbs([b.limb0, b.limb1, b.limb2, b.limb3]);
    let l = x.wrapping_add(y).into_limbs();
    U256 { limb0: l[0], limb1: l[1], limb2: l[2], limb3: l[3] }
}

/// Relies on ruint's `Uint::wrapping_sub`: the difference modulo 2^256.
#[verifier::external_body]
pub(crate) fn wrapping_sub(a: U256, b: U256) -> (r: U256)
    ensures
        r.val() == (a.val() - b.val()) % (word_modulus() as int),
{
    let x = ruint::aliases::U256::from_limbs([a.limb0, a.limb1, a.limb2, a.limb3]);
    let y = ruint::aliases::U256::from_limbs([b.limb0, b.limb1, b.limb2, b.limb3]);
    let l = x.wrapping_sub(y).into_limbs();
    U256 { limb0: l[0], limb1: l[1], limb2: l[2], limb3: l[3] }
}

/// Relies on ruint's `Uint::wrapping_mul`: the product modulo 2^256.
#[verifier::external_body]
pub(crate) fn wrapping_mul(a: U256, b: U256) -> (r: U256)
    ensures
        r.val() == (a.val() * b.val()) % word_modulus(),
{
    let x = ruint::aliases::U256::from_limbs([a.limb0, a.limb1, a.limb2, a.limb3]);
    let y = ruint::aliases::U256::from_limbs([b.limb0, b.limb1, b.limb2, b.limb3]);
    let l = x.wrapping_mul(y).into_limbs();
    U256 { limb0: l[0], limb1: l[1], limb2: l[2], limb3: l[3] }
}

/// Relies on ruint's `Uint::wrapping_div`: the quotient rounded down; it
/// panics on a zero divisor, which `requires` leaves out.
#[verifier::external_body]
pub(crate) fn div(a: U256, b: U256) -> (r: U256)
    requires
        b.val() != 0,
    ensures
        r.val() == a.val() / b.val(),
{
    let x = ruint::aliases::U256::from_limbs([a.limb0, a.limb1, a.limb2, a.limb3]);
    let y = ruint::aliases::U256::from_limbs([b.limb0, b.limb1, b.limb2, b.limb3]);
    let l = x.wrapping_div(y).into_limbs();
    U256 { limb0: l[0], limb1: l[1], limb2: l[2], limb3: l[3] }
}

/// Relies on ruint's `Uint::wrapping_rem`: the remainder; it panics on a
/// zero divisor, which `requires` leaves out.
#[verifier::external_body]
pub(crate) fn rem(a: U256, b: U256) -> (r: U256)
    requires
        b.val() != 0,
    ensures
        r.val() == a.val() % b.val(),
{
    let x = ruint::aliases::U256::from_limbs([a.limb0, a.limb1, a.limb2, a.limb3]);
    let y = ruint::aliases::U256::from_limbs([b.limb0, b.limb1, b.limb2, b.limb3]);
    let l = x.wrapping_rem(y).into_limbs();
    U256 { limb0: l[0], limb1: l[1], limb2: l[2], limb3: l[3] }
}

/// Relies on ruint's `Uint::wrapping_shl`: the word times 2^n, modulo 2^256.
#[verifier::external_body]
pub(crate) fn shl(a: U256, n: usize) -> (r: U256)
    requires
        n < 256,
    ensures
        r.val() == (a.val() * pow2(n as nat)) % word_modulus(),
{
    let x = ruint::aliases::U256::from_limbs([a.limb0, a.limb1, a.limb2, a.limb3]);
    let l = x.wrapping_shl(n).into_limbs();
    U256 { limb0: l[0], limb1: l[1], limb2: l[2], limb3: l[3] }
}

/// Relies on ruint's `Uint::wrapping_shr`: the word divided by 2^n, rounded
/// down.
#[verifier::external_body]
pub(crate) fn shr(a: U256, n: usize) -> (r: U256)
    requires
        n < 256,
    ensures
        r.val() == a.val() / pow2(n as nat),
{
    let x = ruint::aliases::U256::from_limbs([a.limb0, a.limb1, a.limb2, a.limb3]);
    let l = x.wrapping_shr(n).into_limbs();
    U256 { limb0: l[0], limb1: l[1], limb2: l[2], limb3: l[3] }
}

/// Relies on ruint's `BitAnd` for `Uint`: bitwise and.
#[verifier::external_body]
pub(crate) fn bitand(a: U256, b: U256) -> (r: U256)
    ensures
        r.val() == bit_and(a.val(), b.val()),
{
    let x = ruint::aliases::U256::from_limbs([a.limb0, a.limb1, a.limb2, a.limb3]);
    let y = ruint::aliases::U256::from_limbs([b.limb0, b.limb1, b.limb2, b.limb3]);
    let l = (x & y).into_limbs();
    U256 { limb0: l[0], limb1: l[1], limb2: l[2], limb3: l[3] }
}

/// Relies on ruint's `BitOr` for `Uint`: bitwise or.
#[verifier::external_body]
pub(crate) fn bitor(a: U256, b: U256) -> (r: U256)
    ensures
        r.val() == bit_or(a.val(), b.val()),
{
    let x = ruint::aliases::U256::from_limbs([a.limb0, a.limb1, a.limb2, a.limb3]);
    let y = ruint::aliases::U256::from_limbs([b.limb0, b.limb1, b.limb2, b.limb3]);
    let l = (x | y).into_limbs();
    U256 { limb0: l[0], limb1: l[1], limb2: l[2], limb3: l[3] }
}

/// Relies on ruint's `BitXor` for `Uint`: bitwise exclusive or.
#[verifier::external_body]
pub(crate) fn bitxor(a: U256, b: U256) -> (r: U256)
    ensures
        r.val() == bit_xor(a.val(), b.val()),
{
    let x = ruint::aliases::U256::from_limbs([a.limb0, a.limb1, a.limb2, a.limb3]);
    let y = ruint::aliases::U256::from_limbs([b.limb0, b.limb1, b.limb2, b.limb3]);
    let l = (x ^ y).into_limbs();
    U256 { limb0: l[0], limb1: l[1], limb2: l[2], limb3: l[3] }
}

/// Relies on ruint's `Uint::not`: every bit of the word inverted.
#[verifier::external_body]
pub(crate) fn not(a: U256) -> (r: U256)
    ensures
        r.val() == word_max() - a.val(),
{
    let x = ruint::aliases::U256::from_limbs([a.limb0, a.limb1, a.limb2, a.limb3]);
    let l = x.not().into_limbs();
    U256 { limb0: l[0], limb1: l[1], limb2: l[2], limb3: l[3] }
}

/// Relies on ruint's `Uint::leading_zeros`: the number of zero bits above the
/// highest set bit, 256 for zero.
#[verifier::external_body]
pub(crate) fn leading_zeros(a: U256) -> (r: usize)
    ensures
        a.val() == 0 ==> r == 256,
        a.val() != 0 ==> r == 255 - log2_floor(a.val()),
{
    let x = ruint::aliases::U256::from_limbs([a.limb0, a.limb1, a.limb2, a.limb3]);
    x.leading_zeros()
}

/// Relies on ruint's `Uint::trailing_zeros`: the number of zero bits below
/// the lowest set bit, 256 for zero.
#[verifier::external_body]
pub(crate) fn trailing_zeros(a: U256) -> (r: usize)
    ensures
        a.val() == 0 ==> r == 256,
        a.val() != 0 ==> r == trailing_zeros_of(a.val()),
{
    let x = ruint::aliases::U256::from_limbs([a.limb0, a.limb1, a.limb2, a.limb3]);
    x.trailing_zeros()
}

/// Half the word modulus: the bound of two's-complement values.
pub open spec fn half_modulus() -> nat {
    word_modulus() / 2
}

/// A signed 256-bit integer in two's complement.
#[derive(Clone, Copy, Debug, PartialEq, Eq, Structural)]
pub struct I256 {
    pub raw: U256,
}

impl I256 {
    /// The signed value of the word.
    pub open spec fn val(self) -> int {
        if self.raw.val() < half_modulus() {
            self.raw.val() as int
        } else {
            self.raw.val() - word_modulus()
        }
    }

    /// The signed reading of a raw word.
    pub fn from_raw(raw: U256) -> (r: I256)
        ensures
            r.raw == raw,
    {
        I256 { raw }
    }

    /// The raw two's-complement word.
    pub fn into_raw(self) -> (r: U256)
        ensures
            r == self.raw,
    {
        self.raw
    }

    /// A 128-bit signed integer, sign-extended.
    pub fn from_i128(x: i128) -> (r: I256)
        ensures
            r.val() == x,
    {
        proof {
            lemma_limb_base_powers();
        }
        if x >= 0 {
            let w = U256::from_u128(x as u128);
            I256 { raw: w }
        } else {
            let magnitude = ((-(x + 1)) as u128) + 1;
            let w = wrapping_sub(U256::zero(), U256::from_u128(magnitude));
            proof {
                lemma_fundamental_div_mod_converse(
                    0 - magnitude,
                    word_modulus() as int,
                    -1,
                    word_modulus() - magnitude,
                );
            }
            I256 { raw: w }
        }
    }

    /// Whether the value is zero or above.
    pub fn is_nonnegative(&self) -> (r: bool)
        ensures
            r == (self.val() >= 0),
    {
        proof {
            lemma_word_limbs(self.raw);
            lemma_limb_base_powers();
        }
        self.raw.limb3 < 0x8000_0000_0000_0000
    }

    /// The value as a 32-bit integer, when it fits.
    pub fn to_i32(&self) -> (r: i32)
        requires
            i32::MIN <= self.val() <= i32::MAX,
        ensures
            r == self.val(),
    {
        proof {
            lemma_word_limbs(self.raw);
            lemma_limb_base_powers();
            lemma_raw_is_val_mod(*self);
        }
        let low = self.raw.limb0;
        if self.is_nonnegative() {
            low as i32
        } else {
            proof {
                let m = word_modulus() as int;
                let b = limb_base() as int;
                assert(m == b * (b * b * b)) by (nonlinear_arith)
                    requires
                        m == b * b * b * b,
                ;
                vstd::arithmetic::div_mod::lemma_mod_mod(self.val(), b, b * b * b);
                lemma_fundamental_div_mod_converse(self.val(), b, -1, self.val() + b);
            }
            (low as i128 - 0x1_0000_0000_0000_0000i128) as i32
        }
    }

    /// The negation, wrapping at the most negative value.
    pub fn wrapping_neg(&self) -> (r: I256)
        ensures
            r.raw.val() == (0 - self.raw.val()) % (word_modulus() as int),
    {
        I256 { raw: wrapping_sub(U256::zero(), self.raw) }
    }
}

/// Relies on ruint's `Uint::arithmetic_shr`: the two's-complement value
/// divided by 2^n, rounded toward negative infinity.
#[verifier::external_body]
pub(crate) fn arithmetic_shr(a: I256, n: usize) -> (r: I256)
    requires
        n < 256,
    ensures
        r.val() == a.val() / (pow2(n as nat) as int),
{
    let x = ruint::aliases::U256::from_limbs([a.raw.limb0, a.raw.limb1, a.raw.limb2, a.raw.limb3]);
    let l = x.arithmetic_shr(n).into_limbs();
    I256 { raw: U256 { limb0: l[0], limb1: l[1], limb2: l[2], limb3: l[3] } }
}

/// The raw word of a signed value is that value modulo 2^256.
pub proof fn lemma_raw_is_val_mod(w: I256)
    ensures
        w.raw.val() == w.val() % (word_modulus() as int),
{
    lemma_word_limbs(w.raw);
    if w.raw.val() < half_modulus() {
        lemma_small_mod(w.raw.val(), word_modulus());
    } else {
        lemma_fundamental_div_mod_converse(
            w.val(),
            word_modulus() as int,
            -1,
            w.raw.val() as int,
        );
    }
}

/// A raw word holding `v` modulo 2^256 reads back as `v` when `v` is within
/// the signed range.
pub proof fn lemma_signed_wrap(v: int, w: I256)
    requires
        w.raw.val() == v % (word_modulus() as int),
        -(half_modulus() as int) <= v < half_modulus(),
    ensures
        w.val() == v,
{
    if v >= 0 {
        lemma_small_mod(v as nat, word_modulus());
    } else {
        lemma_fundamental_div_mod_converse(v, word_modulus() as int, -1, v + word_modulus());
    }
}

/// The limb decomposition is a positional one and bounds the value.
pub proof fn lemma_word_limbs(w: U256)
    ensures
        w.val() < word_modulus(),
        w.val() % limb_base() == w.limb0,
        w.val() / limb_base() == w.limb1 as nat + limb_base() * (w.limb2 as nat + limb_base()
            * w.limb3 as nat),
        w.val() / (limb_base() * limb_base()) == w.limb2 as nat + limb_base() * w.limb3 as nat,
        w.val() / (limb_base() * limb_base() * limb_base()) == w.limb3 as nat,
        w.val() <= u128::MAX <==> (w.limb2 == 0 && w.limb3 == 0),
        w.val() == w.limb0 + limb_base() * w.limb1 + limb_base() * limb_base() * (w.limb2
            + limb_base() * w.limb3),
{
    let b = limb_base() as int;
    let l0 = w.limb0 as int;
    let l1 = w.limb1 as int;
    let l2 = w.limb2 as int;
    let l3 = w.limb3 as int;
    let t3 = l3;
    let t2 = l2 + b * t3;
    let t1 = l1 + b * t2;
    let t0 = l0 + b * t1;
    assert(t0 == w.val());
    assert(0 <= t2 < b * b) by (nonlinear_arith)
        requires
            b == 0x1_0000_0000_0000_0000int,
            0 <= l2 < b,
            0 <= l3 < b,
            t2 == l2 + b * l3,
    ;
    assert(0 <= t1 < b * b * b) by (nonlinear_arith)
        requires
            b == 0x1_0000_0000_0000_0000int,
            0 <= l1 < b,
            0 <= t2 < b * b,
            t1 == l1 + b * t2,
    ;
    assert(0 <= t0 < b * b * b * b) by (nonlinear_arith)
        requires
            b == 0x1_0000_0000_0000_0000int,
            0 <= l0 < b,
            0 <= t1 < b * b * b,
            t0 == l0 + b * t1,
    ;
    lemma_limb_base_powers();
    lemma_fundamental_div_mod_converse(t0, b, t1, l0);
    lemma_fundamental_div_mod_converse(t1, b, t2, l1);
    lemma_fundamental_div_mod_converse(t2, b, t3, l2);
    lemma_div_denominator(t0, b, b);
    lemma_div_denominator(t0, b * b, b);
    assert(t0 == l0 + b * l1 + b * b * t2) by (nonlinear_arith)
        requires
            t0 == l0 + b * t1,
            t1 == l1 + b * t2,
    ;
    if l2 == 0 && l3 == 0 {
        assert(t0 <= u128::MAX) by (nonlinear_arith)
            requires
                b == 0x1_0000_0000_0000_0000int,
                0 <= l0 < b,
                0 <= l1 < b,
                t0 == l0 + b * l1,
        ;
    } else {
        assert(t2 >= 1);
        assert(t0 > u128::MAX) by (nonlinear_arith)
            requires
                b == 0x1_0000_0000_0000_0000int,
                0 <= l0,
                0 <= l1,
                t2 >= 1,
                t0 == l0 + b * l1 + b * b * t2,
        ;
    }
}

/// The limb base raised to the number of limbs is the word modulus.
pub proof fn lemma_limb_base_powers()
    ensures
        limb_base() * limb_base() == 0x1_0000_0000_0000_0000_0000_0000_0000_0000nat,
        limb_base() * limb_base() * limb_base() == 0x1_0000_0000_0000_0000_0000_0000_0000_0000_0000_0000_0000_0000nat,
        limb_base() * limb_base() * limb_base() * limb_base() == word_modulus(),
{
    let b = limb_base();
    assert(b * b == 0x1_0000_0000_0000_0000_0000_0000_0000_0000nat) by (nonlinear_arith)
        requires
            b == 0x1_0000_0000_0000_0000nat,
    ;
    assert(b * b * b == 0x1_0000_0000_0000_0000_0000_0000_0000_0000_0000_0000_0000_0000nat) by (nonlinear_arith)
        requires
            b * b == 0x1_0000_0000_0000_0000_0000_0000_0000_0000nat,
            b == 0x1_0000_0000_0000_0000nat,
    ;
    assert(b * b * b * b == 0x1_0000_0000_0000_0000_0000_0000_0000_0000_0000_0000_0000_0000_0000_0000_0000_0000int) by (nonlinear_arith)
        requires
            b * b * b == 0x1_0000_0000_0000_0000_0000_0000_0000_0000_0000_0000_0000_0000nat,
            b == 0x1_0000_0000_0000_0000nat,
    ;
}

/// 2^256 is the word modulus.
pub proof fn lemma_pow2_256()
    ensures
        pow2(256) == word_modulus(),
        pow2(128) == 0x1_0000_0000_0000_0000_0000_0000_0000_0000nat,
        pow2(64) == limb_base(),
{
    lemma2_to64();
    lemma_pow2_adds(64, 64);
    lemma_pow2_adds(128, 128);
    lemma_limb_base_powers();
    let p64 = pow2(64);
    assert(p64 * p64 == limb_base() * limb_base());
    let p128 = pow2(128);
    assert(p128 * p128 == limb_base() * limb_base() * limb_base() * limb_base()) by (nonlinear_arith)
        requires
            p128 == limb_base() * limb_base(),
    ;
}

/// Two words of equal value are the same word.
pub proof fn lemma_val_injective(a: U256, b: U256)
    requires
        a.val() == b.val(),
    ensures
        a == b,
{
    lemma_word_limbs(a);
    lemma_word_limbs(b);
}

} // verus!
