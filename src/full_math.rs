//! Multiply-divide with a 512-bit intermediate product.
use vstd::prelude::*;
use vstd::arithmetic::power2::{pow2, lemma_pow2_adds, lemma_pow2_pos, lemma_pow2_strictly_increases};
use vstd::arithmetic::div_mod::{
    lemma_fundamental_div_mod, lemma_fundamental_div_mod_converse, lemma_mod_mod,
    lemma_mul_mod_noop_left, lemma_mul_mod_noop_right, lemma_mod_multiples_basic,
    lemma_small_mod, lemma_div_multiples_vanish, lemma_add_mod_noop, lemma_mul_mod_noop,
};
use crate::bits::{
    bit_and, bit_or, bit_xor, trailing_zeros_of, lemma_and_negation, lemma_trailing_zeros_facts,
    lemma_or_disjoint, lemma_xor_pow2,
};
use crate::error::UniswapV3MathError;
use crate::u256::{
    U256, word_modulus, word_max, wrapping_add, wrapping_sub, wrapping_mul, div, bitand, bitor,
    bitxor, lemma_word_limbs, lemma_pow2_256,
};

verus! {

/// Relies on ruint's `Uint::mul_mod`: the full product reduced modulo the
/// third argument, computed without loss; zero when that modulus is zero.
#[verifier::external_body]
pub fn mul_mod(a: U256, b: U256, denominator: U256) -> (r: U256)
    ensures
        denominator.val() == 0 ==> r.val() == 0,
        denominator.val() != 0 ==> r.val() == (a.val() * b.val()) % denominator.val(),
{
    let x = ruint::aliases::U256::from_limbs([a.limb0, a.limb1, a.limb2, a.limb3]);
    let y = ruint::aliases::U256::from_limbs([b.limb0, b.limb1, b.limb2, b.limb3]);
    let m = ruint::aliases::U256::from_limbs(
        [denominator.limb0, denominator.limb1, denominator.limb2, denominator.limb3],
    );
    let l = x.mul_mod(y, m).into_limbs();
    U256 { limb0: l[0], limb1: l[1], limb2: l[2], limb3: l[3] }
}

/// What `mul_div` returns for `a * b / d`, computed exactly.
pub open spec fn mul_div_result(a: nat, b: nat, d: nat) -> Result<nat, UniswapV3MathError> {
    if d == 0 {
        if a * b < word_modulus() {
            Err(UniswapV3MathError::DenominatorIsZero)
        } else {
            Err(UniswapV3MathError::DenominatorIsLteProdOne)
        }
    } else if a * b / d >= word_modulus() {
        Err(UniswapV3MathError::DenominatorIsLteProdOne)
    } else {
        Ok(a * b / d)
    }
}

/// What `mul_div_rounding_up` returns: the exact quotient rounded up.
pub open spec fn mul_div_up_result(a: nat, b: nat, d: nat) -> Result<nat, UniswapV3MathError> {
    match mul_div_result(a, b, d) {
        Err(e) => Err(e),
        Ok(q) => if (a * b) % d != 0 {
            if q == word_max() {
                Err(UniswapV3MathError::ResultIsU256MAX)
            } else {
                Ok(q + 1)
            }
        } else {
            Ok(q)
        },
    }
}

/// The value a word result stands for.
pub open spec fn word_result(r: Result<U256, UniswapV3MathError>) -> Result<
    nat,
    UniswapV3MathError,
> {
    match r {
        Ok(w) => Ok(w.val()),
        Err(e) => Err(e),
    }
}

/// The high limb recovered from the product modulo `m` and modulo `m - 1`.
proof fn lemma_high_limb(p: int, m: int, mm: int, lo: int, prod1: int)
    requires
        m > 2,
        0 <= p <= (m - 1) * (m - 1),
        mm == p % (m - 1),
        lo == p % m,
        prod1 == (((mm - lo) % m) - (if mm < lo { 1int } else { 0int })) % m,
    ensures
        prod1 == p / m,
{
    let hi = p / m;
    lemma_fundamental_div_mod(p, m);
    assert(hi <= m - 2) by (nonlinear_arith)
        requires
            p == m * hi + lo,
            0 <= lo < m,
            p <= (m - 1) * (m - 1),
            m > 2,
    ;
    assert(hi >= 0) by (nonlinear_arith)
        requires
            p == m * hi + lo,
            0 <= lo < m,
            p >= 0,
            m > 2,
    ;
    let s = hi + lo;
    assert(p == (m - 1) * hi + s) by (nonlinear_arith)
        requires
            p == m * hi + lo,
            s == hi + lo,
    ;
    if s < m - 1 {
        lemma_fundamental_div_mod_converse(p, m - 1, hi, s);
        lemma_small_mod((mm - lo) as nat, m as nat);
    } else {
        assert(p == (m - 1) * (hi + 1) + (s - (m - 1))) by (nonlinear_arith)
            requires
                p == (m - 1) * hi + s,
        ;
        lemma_fundamental_div_mod_converse(p, m - 1, hi + 1, s - (m - 1));
        assert(mm == hi + lo - m + 1);
        lemma_fundamental_div_mod_converse(mm - lo, m, -1, mm - lo + m);
        lemma_small_mod((mm - lo + m - 1) as nat, m as nat);
    }
}

/// One Newton step doubles the number of correct low bits of an inverse.
proof fn lemma_newton_step(d: int, inv: int, m: int, q: int, inv2: int)
    requires
        q >= 2,
        m > 0,
        m % (q * q) == 0,
        (d * inv) % q == 1,
        inv2 == (inv * ((2 - (d * inv) % m) % m)) % m,
    ensures
        (d * inv2) % (q * q) == 1,
{
    let qq = q * q;
    assert(qq > 1) by (nonlinear_arith)
        requires
            q >= 2,
            qq == q * q,
    ;
    let e = d * inv;
    let t = (2 - e % m) % m;
    let c = m / qq;
    let w1 = e / m;
    let w2 = (2 - e % m) / m;
    let w3 = (inv * t) / m;
    let k = e / q;
    lemma_fundamental_div_mod(m, qq);
    lemma_fundamental_div_mod(e, m);
    lemma_fundamental_div_mod(2 - e % m, m);
    lemma_fundamental_div_mod(inv * t, m);
    lemma_fundamental_div_mod(e, q);
    let z = c * (e * (w1 - w2) - d * w3) - k * k;
    assert(t == 2 - e + m * (w1 - w2)) by (nonlinear_arith)
        requires
            e == m * w1 + e % m,
            2 - e % m == m * w2 + t,
    ;
    assert(d * inv2 == e * t - m * (d * w3)) by (nonlinear_arith)
        requires
            inv * t == m * w3 + inv2,
            e == d * inv,
    ;
    assert(e * t == e * (2 - e) + m * (e * (w1 - w2))) by (nonlinear_arith)
        requires
            t == 2 - e + m * (w1 - w2),
    ;
    assert(e * (2 - e) == 1 - qq * (k * k)) by (nonlinear_arith)
        requires
            e == q * k + 1,
            qq == q * q,
    ;
    assert(m * (e * (w1 - w2)) - m * (d * w3) == qq * (c * (e * (w1 - w2) - d * w3))) by (nonlinear_arith)
        requires
            m == qq * c,
    ;
    assert(d * inv2 == 1 + qq * z) by (nonlinear_arith)
        requires
            d * inv2 == e * t - m * (d * w3),
            e * t == e * (2 - e) + m * (e * (w1 - w2)),
            e * (2 - e) == 1 - qq * (k * k),
            m * (e * (w1 - w2)) - m * (d * w3) == qq * (c * (e * (w1 - w2) - d * w3)),
            z == c * (e * (w1 - w2) - d * w3) - k * k,
    ;
    lemma_fundamental_div_mod_converse(d * inv2, qq, z, 1);
}

/// The seed `(3 * d) ^ 2` inverts an odd `d` modulo 16.
proof fn lemma_inverse_seed(d: nat, x: nat, seed: nat)
    requires
        d % 2 == 1,
        x == (3 * d) % word_modulus(),
        seed == bit_xor(x, 2),
    ensures
        (d * seed) % 16 == 1,
{
    vstd::arithmetic::power2::lemma2_to64();
    lemma_xor_pow2(x, 1);
    assert(word_modulus() == 16 * (word_modulus() / 16));
    lemma_mod_mod((3 * d) as int, 16, (word_modulus() / 16) as int);
    let x0 = x % 16;
    assert(x0 == (3 * d) % 16);
    lemma_mul_mod_noop_right(3, d as int, 16);
    let d0 = d % 16;
    assert(x0 == (3 * d0) % 16);
    lemma_fundamental_div_mod(x as int, 16);
    assert((x / 2) % 2 == (x0 / 2) % 2);
    lemma_mul_mod_noop(d as int, seed as int, 16);
    let s0 = seed % 16;
    if (x0 / 2) % 2 == 1 {
        assert(seed == x - 2);
        assert(s0 == (x0 + 14) % 16);
    } else {
        assert(seed == x + 2);
        assert(s0 == (x0 + 2) % 16);
    }
    assert(d0 % 2 == 1);
    assert((d0 * s0) % 16 == 1) by {
        assert(d0 == 1 || d0 == 3 || d0 == 5 || d0 == 7 || d0 == 9 || d0 == 11 || d0 == 13
            || d0 == 15);
    }
}

/// Multiplying by the inverse of the divisor divides exactly.
proof fn lemma_exact_by_inverse(y: nat, dd: nat, q: nat, inv: nat, m: nat)
    requires
        y == dd * q,
        q < m,
        (dd * inv) % m == 1,
        m > 1,
    ensures
        ((y % m) * inv) % m == q,
{
    lemma_mul_mod_noop_left(y as int, inv as int, m as int);
    assert(y * inv == q * (dd * inv)) by (nonlinear_arith)
        requires
            y == dd * q,
    ;
    lemma_mul_mod_noop_right(q as int, (dd * inv) as int, m as int);
    lemma_small_mod(q, m);
}

/// Or-ing the shifted high limb into the low limb gives the low word of the
/// product divided by `twos`.
proof fn lemma_shift_in(
    big: nat,
    prod1: nat,
    prod0: nat,
    k: nat,
    twos: nat,
    flip: nat,
    low: nat,
    combined: nat,
)
    requires
        k < 256,
        twos == pow2(k),
        big == prod1 * word_modulus() + prod0,
        prod0 < word_modulus(),
        big % twos == 0,
        flip == (word_modulus() / twos) % word_modulus(),
        low == prod0 / twos,
        combined == bit_or(low, (prod1 * flip) % word_modulus()),
    ensures
        combined == (big / twos) % word_modulus(),
{
    let m = word_modulus();
    lemma_pow2_256();
    let s = pow2((256 - k) as nat);
    lemma_pow2_adds((256 - k) as nat, k);
    lemma_pow2_pos(k);
    lemma_pow2_pos((256 - k) as nat);
    assert(m == s * twos);
    assert(m / twos == s) by {
        lemma_div_multiples_vanish(s as int, twos as int);
    }
    lemma_mul_mod_noop_right(prod1 as int, s as int, m as int);
    let x = (prod1 * s) % m;
    assert((prod1 * flip) % m == x);
    // `x` is a multiple of `s` below `m`.
    assert(m == twos * s) by (nonlinear_arith)
        requires
            m == s * twos,
    ;
    lemma_mod_mod((prod1 * s) as int, s as int, twos as int);
    lemma_mod_multiples_basic(prod1 as int, s as int);
    assert(x % s == 0);
    lemma_fundamental_div_mod(x as int, s as int);
    let j = x / s;
    assert(x <= m - s) by (nonlinear_arith)
        requires
            x == s * j,
            x < m,
            m == s * twos,
            s > 0,
    ;
    // The low limb divides evenly.
    lemma_mod_multiples_basic((prod1 * s) as int, twos as int);
    assert(prod1 * m == (prod1 * s) * twos) by (nonlinear_arith)
        requires
            m == s * twos,
    ;
    lemma_fundamental_div_mod(prod0 as int, twos as int);
    lemma_fundamental_div_mod(big as int, twos as int);
    assert(prod0 % twos == 0) by {
        lemma_add_mod_noop((prod1 * m) as int, prod0 as int, twos as int);
        assert((prod1 * m) % twos == 0);
        lemma_small_mod(prod0 % twos, twos);
    }
    assert(low < s) by (nonlinear_arith)
        requires
            prod0 == twos * low,
            prod0 < m,
            m == s * twos,
            twos > 0,
    ;
    lemma_or_disjoint(low, x, (256 - k) as nat);
    // The quotient of the whole product.
    assert(big == (prod1 * s + low) * twos) by (nonlinear_arith)
        requires
            big == prod1 * m + prod0,
            m == s * twos,
            prod0 == twos * low,
    ;
    assert(big / twos == prod1 * s + low) by {
        lemma_div_multiples_vanish((prod1 * s + low) as int, twos as int);
    }
    lemma_add_mod_noop((prod1 * s) as int, low as int, m as int);
    lemma_small_mod(low, m);
    lemma_small_mod(x + low, m);
}

/// `⌊a * b / denominator⌋`, exact even where `a * b` exceeds 256 bits.
pub fn mul_div(a: U256, b: U256, denominator: U256) -> (r: Result<U256, UniswapV3MathError>)
    ensures
        word_result(r) == mul_div_result(a.val(), b.val(), denominator.val()),
{
    let m = Ghost(word_modulus() as int);
    let p = Ghost((a.val() * b.val()) as int);
    proof {
        lemma_word_limbs(a);
        lemma_word_limbs(b);
        lemma_word_limbs(denominator);
        assert(p@ <= (m@ - 1) * (m@ - 1)) by (nonlinear_arith)
            requires
                p@ == a.val() * b.val(),
                a.val() < m@,
                b.val() < m@,
        ;
    }
    // The product modulo 2^256 - 1 and modulo 2^256, then its high limb.
    let mm = mul_mod(a, b, U256::max_value());
    let prod_0 = wrapping_mul(a, b);
    let borrow: u64 = if mm.lt(&prod_0) {
        1
    } else {
        0
    };
    let prod_1 = wrapping_sub(wrapping_sub(mm, prod_0), U256::from_u64(borrow));
    proof {
        lemma_high_limb(p@, m@, mm.val() as int, prod_0.val() as int, prod_1.val() as int);
        lemma_fundamental_div_mod(p@, m@);
    }
    if prod_1.is_zero() {
        if denominator.is_zero() {
            return Err(UniswapV3MathError::DenominatorIsZero);
        }
        let q = div(prod_0, denominator);
        proof {
            assert(q.val() <= p@) by {
                vstd::arithmetic::div_mod::lemma_div_is_ordered_by_denominator(
                    p@,
                    1,
                    denominator.val() as int,
                );
            }
        }
        return Ok(q);
    }
    let d = Ghost(denominator.val() as int);
    if denominator.le(&prod_1) {
        proof {
            if d@ > 0 {
                assert(p@ / d@ >= m@) by (nonlinear_arith)
                    requires
                        p@ == m@ * prod_1.val() + prod_0.val(),
                        0 < d@ <= prod_1.val(),
                        prod_0.val() >= 0,
                        m@ > 0,
                {
                    lemma_fundamental_div_mod(p@, d@);
                }
            }
        }
        return Err(UniswapV3MathError::DenominatorIsLteProdOne);
    }
    // From here on `a * b < denominator * 2^256`, so the quotient fits.
    Ok(mul_div_wide(a, b, denominator, prod_0, prod_1))
}

/// The quotient of a product wider than a word by a denominator above its
/// high limb.
fn mul_div_wide(a: U256, b: U256, denominator: U256, prod_0: U256, prod_1: U256) -> (r: U256)
    requires
        a.val() * b.val() == prod_1.val() * word_modulus() + prod_0.val(),
        0 < prod_1.val() < denominator.val(),
    ensures
        r.val() == a.val() * b.val() / denominator.val(),
        a.val() * b.val() / denominator.val() < word_modulus(),
{
    proof {
        lemma_word_limbs(prod_0);
        lemma_word_limbs(denominator);
        lemma_quotient_fits(
            a.val() * b.val(),
            denominator.val(),
            prod_1.val(),
            prod_0.val(),
        );
    }
    // Make the division exact by subtracting the remainder.
    let remainder = mul_mod(a, b, denominator);
    let borrow: u64 = if remainder.gt(&prod_0) {
        1
    } else {
        0
    };
    let high = wrapping_sub(prod_1, U256::from_u64(borrow));
    let low = wrapping_sub(prod_0, remainder);
    proof {
        lemma_subtract_remainder(
            a.val() * b.val(),
            denominator.val(),
            prod_1.val(),
            prod_0.val(),
            remainder.val(),
            borrow as nat,
            high.val(),
            low.val(),
        );
    }
    // Factor the largest power of two out of the denominator.
    let neg_denominator = wrapping_sub(U256::zero(), denominator);
    let twos = bitand(denominator, neg_denominator);
    proof {
        lemma_lowest_bit(denominator.val(), neg_denominator.val(), twos.val());
    }
    let odd_denominator = div(denominator, twos);
    let shifted_low = div(low, twos);
    // 2^256 / twos, which wraps to zero when twos is one.
    let neg_twos = wrapping_sub(U256::zero(), twos);
    let flip = wrapping_add(div(neg_twos, twos), U256::one());
    proof {
        lemma_flip(trailing_zeros_of(denominator.val()), twos.val(), neg_twos.val(), flip.val());
        lemma_divides_exact(
            (a.val() * b.val() - remainder.val()) as nat,
            denominator.val(),
            a.val() * b.val() / denominator.val(),
            twos.val(),
        );
    }
    let combined = bitor(shifted_low, wrapping_mul(high, flip));
    proof {
        lemma_shift_in(
            (a.val() * b.val() - remainder.val()) as nat,
            high.val(),
            low.val(),
            trailing_zeros_of(denominator.val()),
            twos.val(),
            flip.val(),
            shifted_low.val(),
            combined.val(),
        );
    }
    let inv = inverse_mod_word(odd_denominator);
    proof {
        lemma_exact_by_inverse(
            (a.val() * b.val() - remainder.val()) as nat / twos.val(),
            odd_denominator.val(),
            a.val() * b.val() / denominator.val(),
            inv.val(),
            word_modulus(),
        );
    }
    wrapping_mul(combined, inv)
}

/// A product below `(prod1 + 1) * 2^256` divided by more than `prod1` fits
/// in a word.
proof fn lemma_quotient_fits(p: nat, d: nat, prod1: nat, prod0: nat)
    requires
        p == prod1 * word_modulus() + prod0,
        prod0 < word_modulus(),
        prod1 < d,
    ensures
        p / d < word_modulus(),
{
    let m = word_modulus();
    lemma_fundamental_div_mod(p as int, d as int);
    let q = p / d;
    assert(q < m) by (nonlinear_arith)
        requires
            p == m * prod1 + prod0,
            prod0 < m,
            prod1 < d,
            p == d * q + p % d,
            p % d >= 0,
            d > 0,
    ;
}

/// Subtracting the remainder from the two-limb product, with a borrow.
proof fn lemma_subtract_remainder(
    p: nat,
    d: nat,
    prod1: nat,
    prod0: nat,
    rem: nat,
    borrow: nat,
    high: nat,
    low: nat,
)
    requires
        p == prod1 * word_modulus() + prod0,
        prod0 < word_modulus(),
        0 < prod1 < word_modulus(),
        0 < d,
        rem == p % d,
        rem < word_modulus(),
        borrow == (if rem > prod0 { 1nat } else { 0nat }),
        high == (prod1 - borrow) % (word_modulus() as int),
        low == (prod0 - rem) % (word_modulus() as int),
    ensures
        p - rem == high * word_modulus() + low,
        p - rem == d * (p / d),
{
    let m = word_modulus() as int;
    lemma_small_mod((prod1 - borrow) as nat, m as nat);
    if borrow == 1 {
        lemma_fundamental_div_mod_converse(prod0 - rem, m, -1, prod0 - rem + m);
    } else {
        lemma_small_mod((prod0 - rem) as nat, m as nat);
    }
    lemma_fundamental_div_mod(p as int, d as int);
}

/// `d & (2^256 - d)` is the lowest set bit of a nonzero word `d`.
proof fn lemma_lowest_bit(d: nat, neg: nat, twos: nat)
    requires
        0 < d < word_modulus(),
        neg == (0 - d) % (word_modulus() as int),
        twos == bit_and(d, neg),
    ensures
        twos == pow2(trailing_zeros_of(d)),
        trailing_zeros_of(d) < 256,
        d % twos == 0,
        (d / twos) % 2 == 1,
        twos > 0,
{
    let m = word_modulus();
    lemma_pow2_256();
    lemma_fundamental_div_mod_converse(0 - d, m as int, -1, m - d);
    lemma_and_negation(d, 256);
    lemma_trailing_zeros_facts(d);
    let k = trailing_zeros_of(d);
    if k >= 256 {
        if k > 256 {
            lemma_pow2_strictly_increases(256, k);
        }
    }
    lemma_pow2_pos(k);
}

/// `(2^256 - twos) / twos + 1` is `2^256 / twos`, wrapped to zero for one.
proof fn lemma_flip(k: nat, twos: nat, neg: nat, flip: nat)
    requires
        k < 256,
        twos == pow2(k),
        neg == (0 - twos) % (word_modulus() as int),
        flip == (neg / twos + 1) % word_modulus(),
    ensures
        flip == (word_modulus() / twos) % word_modulus(),
{
    let m = word_modulus() as int;
    let t = twos as int;
    lemma_pow2_256();
    let s = pow2((256 - k) as nat) as int;
    lemma_pow2_adds((256 - k) as nat, k);
    lemma_pow2_pos((256 - k) as nat);
    lemma_pow2_pos(k);
    if k > 0 {
        lemma_pow2_strictly_increases(k, 256);
    } else {
        vstd::arithmetic::power2::lemma2_to64();
    }
    lemma_fundamental_div_mod_converse(0 - t, m, -1, m - t);
    assert(m - t == (s - 1) * t) by (nonlinear_arith)
        requires
            m == s * t,
    ;
    lemma_div_multiples_vanish(s - 1, t);
    lemma_div_multiples_vanish(s, t);
}

/// A multiple of `d` is a multiple of each divisor of `d`, and dividing
/// both leaves the odd part times the quotient.
proof fn lemma_divides_exact(big: nat, d: nat, q: nat, twos: nat)
    requires
        big == d * q,
        twos > 0,
        d % twos == 0,
    ensures
        big % twos == 0,
        big / twos == (d / twos) * q,
{
    let dd = d / twos;
    lemma_fundamental_div_mod(d as int, twos as int);
    assert(big == (dd * q) * twos) by (nonlinear_arith)
        requires
            big == d * q,
            d == twos * dd + 0,
    ;
    lemma_mod_multiples_basic((dd * q) as int, twos as int);
    lemma_div_multiples_vanish((dd * q) as int, twos as int);
    assert(twos * (dd * q) == (dd * q) * twos) by (nonlinear_arith);
}

/// The inverse of an odd word modulo 2^256: a seed right to four bits, then
/// six Newton steps, each doubling the number of correct bits.
fn inverse_mod_word(odd_denominator: U256) -> (inv: U256)
    requires
        odd_denominator.val() % 2 == 1,
    ensures
        (odd_denominator.val() * inv.val()) % word_modulus() == 1,
{
    let m = Ghost(word_modulus() as int);
    let three = U256::from_u64(3);
    let two = U256::from_u64(2);
    let mut inv = bitxor(wrapping_mul(three, odd_denominator), two);
    proof {
        lemma_inverse_seed(odd_denominator.val(), (3 * odd_denominator.val()) % m@ as nat, inv.val());
    }
    let dd = Ghost(odd_denominator.val() as int);
    let mut q: Ghost<int> = Ghost(16);
    proof {
        vstd::arithmetic::power2::lemma2_to64();
    }
    let mut step: usize = 0;
    while step < 6
        invariant
            step <= 6,
            m@ == word_modulus(),
            q@ == pow2((4 * pow2(step as nat)) as nat),
            (dd@ * inv.val()) % q@ == 1,
            dd@ == odd_denominator.val(),
            two.val() == 2,
        decreases 6 - step,
    {
        let prev = Ghost(inv.val() as int);
        let x = wrapping_mul(odd_denominator, inv);
        let t = wrapping_sub(two, x);
        inv = wrapping_mul(inv, t);
        proof {
            lemma_newton_iteration(step as nat, dd@, prev@, x.val() as int, t.val() as int, inv.val() as int, q@);
        }
        q = Ghost(q@ * q@);
        step = step + 1;
    }
    proof {
        lemma_pow2_full_inverse();
    }
    inv
}

/// One round of the inverse loop, with its bookkeeping of precision.
proof fn lemma_newton_iteration(step: nat, d: int, prev: int, x: int, t: int, inv: int, q: int)
    requires
        step < 6,
        q == pow2((4 * pow2(step)) as nat),
        (d * prev) % q == 1,
        x == (d * prev) % (word_modulus() as int),
        t == (2 - x) % (word_modulus() as int),
        inv == (prev * t) % (word_modulus() as int),
    ensures
        (d * inv) % (q * q) == 1,
        q * q == pow2((4 * pow2(step + 1)) as nat),
{
    let m = word_modulus() as int;
    vstd::arithmetic::power2::lemma2_to64();
    lemma_pow2_pos(step);
    lemma_pow2_strictly_increases(1, (4 * pow2(step)) as nat);
    lemma_step_divides(step);
    lemma_newton_step(d, prev, m, q, inv);
    lemma_pow2_adds((4 * pow2(step)) as nat, (4 * pow2(step)) as nat);
    vstd::arithmetic::power2::lemma_pow2_unfold(step + 1);
}

/// The modulus 2^256 is divisible by the square of each intermediate modulus
/// of the Newton iteration.
proof fn lemma_step_divides(step: nat)
    requires
        step < 6,
    ensures
        word_modulus() % (pow2((4 * pow2(step)) as nat) * pow2((4 * pow2(step)) as nat)) == 0,
{
    vstd::arithmetic::power2::lemma2_to64();
    lemma_pow2_256();
    let e = (4 * pow2(step)) as nat;
    if step < 5 {
        lemma_pow2_strictly_increases(step, 5);
    }
    assert(e <= 128);
    let r = (256 - 2 * e) as nat;
    lemma_pow2_adds(e, e);
    lemma_pow2_adds(2 * e, r);
    assert(2 * e + r == 256);
    assert(pow2(256) == pow2(2 * e) * pow2(r));
    lemma_pow2_pos(2 * e);
    lemma_mod_multiples_basic(pow2(r) as int, pow2(2 * e) as int);
    assert(pow2(r) * pow2(2 * e) == pow2(2 * e) * pow2(r)) by (nonlinear_arith);
}

/// After six Newton steps the inverse is correct to all 256 bits.
proof fn lemma_pow2_full_inverse()
    ensures
        pow2((4 * pow2(6)) as nat) == word_modulus(),
{
    vstd::arithmetic::power2::lemma2_to64();
    lemma_pow2_256();
}

/// `⌈a * b / denominator⌉`, failing where the rounded result exceeds 256 bits.
pub fn mul_div_rounding_up(a: U256, b: U256, denominator: U256) -> (r: Result<
    U256,
    UniswapV3MathError,
>)
    ensures
        word_result(r) == mul_div_up_result(a.val(), b.val(), denominator.val()),
{
    let result = match mul_div(a, b, denominator) {
        Ok(v) => v,
        Err(e) => return Err(e),
    };
    if mul_mod(a, b, denominator).gt(&U256::zero()) {
        if result.eq(&U256::max_value()) {
            return Err(UniswapV3MathError::ResultIsU256MAX);
        } else {
            proof {
                lemma_word_limbs(result);
                lemma_small_mod(result.val() + 1, word_modulus());
            }
            return Ok(wrapping_add(result, U256::one()));
        }
    }
    Ok(result)
}

} // verus!
