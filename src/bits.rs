//! Bitwise operations on natural numbers, and the facts about them that the
//! word-level algorithms rely on.
use vstd::prelude::*;
use vstd::arithmetic::power2::*;
use vstd::arithmetic::div_mod::*;

verus! {

pub open spec fn bit_and(a: nat, b: nat) -> nat
    decreases a,
{
    if a == 0 || b == 0 {
        0
    } else {
        2 * bit_and(a / 2, b / 2) + (a % 2) * (b % 2)
    }
}

pub open spec fn bit_or(a: nat, b: nat) -> nat
    decreases a + b,
{
    if a == 0 {
        b
    } else if b == 0 {
        a
    } else {
        2 * bit_or(a / 2, b / 2) + (if a % 2 == 1 || b % 2 == 1 { 1nat } else { 0nat })
    }
}

pub open spec fn bit_xor(a: nat, b: nat) -> nat
    decreases a + b,
{
    if a == 0 {
        b
    } else if b == 0 {
        a
    } else {
        2 * bit_xor(a / 2, b / 2) + (if a % 2 != b % 2 { 1nat } else { 0nat })
    }
}

/// Whether bit `i` of `x` is set.
pub open spec fn bit_set(x: nat, i: nat) -> bool {
    (x / pow2(i)) % 2 == 1
}

/// The position of the highest set bit of a positive number.
pub open spec fn log2_floor(x: nat) -> nat
    decreases x,
{
    if x <= 1 {
        0
    } else {
        1 + log2_floor(x / 2)
    }
}

/// The position of the lowest set bit of a positive number.
pub open spec fn trailing_zeros_of(x: nat) -> nat
    decreases x,
{
    if x == 0 || x % 2 == 1 {
        0
    } else {
        1 + trailing_zeros_of(x / 2)
    }
}

proof fn lemma_split_mod(w: nat, k: nat)
    requires
        k >= 1,
    ensures
        w % pow2(k) == 2 * ((w / 2) % pow2((k - 1) as nat)) + w % 2,
        pow2(k) == 2 * pow2((k - 1) as nat),
{
    lemma_pow2_unfold(k);
    lemma_pow2_pos((k - 1) as nat);
    lemma_breakdown(w as int, 2, pow2((k - 1) as nat) as int);
}

/// The highest set bit bounds the number from both sides.
pub proof fn lemma_log2_floor_bounds(x: nat)
    requires
        x >= 1,
    ensures
        pow2(log2_floor(x)) <= x < pow2(log2_floor(x) + 1),
    decreases x,
{
    lemma2_to64();
    if x > 1 {
        lemma_log2_floor_bounds(x / 2);
        lemma_pow2_unfold(log2_floor(x));
        lemma_pow2_unfold(log2_floor(x) + 1);
    }
}

/// A number between two consecutive powers of two has the lower one as its
/// highest bit.
pub proof fn lemma_log2_floor_unique(x: nat, k: nat)
    requires
        pow2(k) <= x < pow2(k + 1),
    ensures
        log2_floor(x) == k,
    decreases k,
{
    lemma2_to64();
    lemma_pow2_unfold(k + 1);
    if k == 0 {
    } else {
        lemma_pow2_unfold(k);
        lemma_log2_floor_unique(x / 2, (k - 1) as nat);
    }
}

/// The lowest set bit divides the number and leaves an odd quotient.
pub proof fn lemma_trailing_zeros_facts(x: nat)
    requires
        x >= 1,
    ensures
        x % pow2(trailing_zeros_of(x)) == 0,
        (x / pow2(trailing_zeros_of(x))) % 2 == 1,
        pow2(trailing_zeros_of(x)) <= x,
    decreases x,
{
    lemma2_to64();
    let t = trailing_zeros_of(x);
    if x % 2 == 1 {
    } else {
        lemma_trailing_zeros_facts(x / 2);
        let t1 = trailing_zeros_of(x / 2);
        lemma_pow2_unfold(t);
        lemma_pow2_pos(t1);
        lemma_div_denominator(x as int, 2, pow2(t1) as int);
        lemma_fundamental_div_mod(x as int, 2);
        lemma_fundamental_div_mod((x / 2) as int, pow2(t1) as int);
        let q = (x / 2) / pow2(t1);
        assert(x == 2 * pow2(t1) * q) by (nonlinear_arith)
            requires
                x == 2 * (x / 2) + x % 2,
                x % 2 == 0,
                x / 2 == pow2(t1) * q + (x / 2) % pow2(t1),
                (x / 2) % pow2(t1) == 0,
        ;
        lemma_mod_multiples_basic(q as int, pow2(t) as int);
        assert(x / pow2(t) == q) by {
            lemma_div_multiples_vanish(q as int, pow2(t) as int);
        }
        assert(pow2(t) <= x) by (nonlinear_arith)
            requires
                x == pow2(t) * q,
                q % 2 == 1,
                pow2(t) > 0,
        ;
    }
}

/// The characterisation of the lowest set bit by divisibility.
pub proof fn lemma_trailing_zeros_unique(x: nat, k: nat)
    requires
        x % pow2(k) == 0,
        (x / pow2(k)) % 2 == 1,
    ensures
        trailing_zeros_of(x) == k,
    decreases k,
{
    lemma2_to64();
    if k == 0 {
        assert(x / 1 == x);
    } else {
        lemma_split_mod(x, k);
        lemma_pow2_pos((k - 1) as nat);
        lemma_div_denominator(x as int, 2, pow2((k - 1) as nat) as int);
        assert(x % 2 == 0) by {
            lemma_mod_mod(x as int, 2, pow2((k - 1) as nat) as int);
        }
        lemma_trailing_zeros_unique(x / 2, (k - 1) as nat);
        assert(x != 0) by {
            if x == 0 {
                lemma_div_of0(pow2(k) as int);
            }
        }
    }
}

/// And with a low mask keeps the low bits.
pub proof fn lemma_and_low_mask(w: nat, k: nat)
    ensures
        bit_and(w, (pow2(k) - 1) as nat) == w % pow2(k),
    decreases k,
{
    lemma2_to64();
    if k == 0 {
    } else if w == 0 {
        lemma_pow2_pos(k);
        lemma_small_mod(0, pow2(k));
    } else {
        lemma_split_mod(w, k);
        lemma_pow2_pos((k - 1) as nat);
        let m = (pow2(k) - 1) as nat;
        assert(m % 2 == 1);
        assert(m / 2 == (pow2((k - 1) as nat) - 1) as nat);
        lemma_and_low_mask(w / 2, (k - 1) as nat);
        assert(bit_and(w, m) == 2 * bit_and(w / 2, m / 2) + (w % 2) * 1);
    }
}

/// And with a mask of the bits from `k` up to `n` clears the low `k` bits.
pub proof fn lemma_and_high_mask(w: nat, k: nat, n: nat)
    requires
        k <= n,
        w < pow2(n),
    ensures
        bit_and(w, (pow2(n) - pow2(k)) as nat) == w - w % pow2(k),
    decreases k,
{
    lemma2_to64();
    lemma_pow2_strictly_increases_or_eq(k, n);
    if k == 0 {
        lemma_and_low_mask(w, n);
        lemma_small_mod(w, pow2(n));
    } else if k == n {
        lemma_small_mod(w, pow2(n));
    } else if w == 0 {
        lemma_pow2_pos(k);
        lemma_small_mod(0, pow2(k));
    } else {
        lemma_split_mod(w, k);
        lemma_pow2_unfold(n);
        lemma_pow2_pos((k - 1) as nat);
        lemma_pow2_strictly_increases(k, n);
        let m = (pow2(n) - pow2(k)) as nat;
        assert(m / 2 == (pow2((n - 1) as nat) - pow2((k - 1) as nat)) as nat);
        assert(m % 2 == 0);
        lemma_and_high_mask(w / 2, (k - 1) as nat, (n - 1) as nat);
        assert(bit_and(w, m) == 2 * bit_and(w / 2, m / 2));
    }
}

proof fn lemma_pow2_strictly_increases_or_eq(k: nat, n: nat)
    requires
        k <= n,
    ensures
        pow2(k) <= pow2(n),
{
    if k < n {
        lemma_pow2_strictly_increases(k, n);
    }
}

/// Xor with a power of two toggles that one bit.
pub proof fn lemma_xor_pow2(w: nat, k: nat)
    ensures
        bit_xor(w, pow2(k)) == if bit_set(w, k) {
            w - pow2(k)
        } else {
            w + pow2(k) as int
        },
    decreases k,
{
    lemma2_to64();
    lemma_pow2_pos(k);
    if w == 0 {
        lemma_div_of0(pow2(k) as int);
    } else if k == 0 {
        assert(w / 1 == w);
        assert(bit_xor(w / 2, 0) == w / 2);
    } else {
        lemma_pow2_unfold(k);
        lemma_pow2_pos((k - 1) as nat);
        let p = pow2((k - 1) as nat);
        assert(pow2(k) / 2 == p);
        assert(pow2(k) % 2 == 0);
        lemma_xor_pow2(w / 2, (k - 1) as nat);
        lemma_div_denominator(w as int, 2, p as int);
        assert(w / pow2(k) == (w / 2) / p);
        assert(bit_xor(w, pow2(k)) == 2 * bit_xor(w / 2, p) + w % 2);
    }
}

/// Or of a number below `2^k` with a multiple of `2^k` is their sum.
pub proof fn lemma_or_disjoint(x: nat, y: nat, k: nat)
    requires
        x < pow2(k),
        y % pow2(k) == 0,
    ensures
        bit_or(x, y) == x + y,
    decreases k,
{
    lemma2_to64();
    if x == 0 || y == 0 {
    } else if k == 0 {
    } else {
        lemma_split_mod(y, k);
        lemma_pow2_pos((k - 1) as nat);
        lemma_mod_mod(y as int, 2, pow2((k - 1) as nat) as int);
        assert(y % 2 == 0);
        lemma_or_disjoint(x / 2, y / 2, (k - 1) as nat);
    }
}

/// A number and its complement below `2^m - 1` share no bit.
proof fn lemma_and_complement(x: nat, m: nat)
    requires
        x < pow2(m),
    ensures
        bit_and(x, (pow2(m) - 1 - x) as nat) == 0,
    decreases m,
{
    lemma2_to64();
    if x == 0 || pow2(m) - 1 - x == 0 {
    } else {
        assert(m >= 1);
        lemma_pow2_unfold(m);
        lemma_pow2_pos((m - 1) as nat);
        let p = pow2((m - 1) as nat);
        let c = (pow2(m) - 1 - x) as nat;
        assert(c % 2 == 1 - x % 2);
        assert(c / 2 == (p - 1 - x / 2) as nat);
        assert((x % 2) * (c % 2) == 0) by (nonlinear_arith)
            requires
                c % 2 == 1 - x % 2,
                x % 2 == 0 || x % 2 == 1,
        ;
        lemma_and_complement(x / 2, (m - 1) as nat);
        assert(bit_and(x, c) == 2 * bit_and(x / 2, c / 2) + (x % 2) * (c % 2));
    }
}

/// `d & (2^n - d)` isolates the lowest set bit of `d`.
pub proof fn lemma_and_negation(d: nat, n: nat)
    requires
        0 < d < pow2(n),
    ensures
        bit_and(d, (pow2(n) - d) as nat) == pow2(trailing_zeros_of(d)),
    decreases n,
{
    lemma2_to64();
    assert(n >= 1);
    lemma_pow2_unfold(n);
    lemma_pow2_pos((n - 1) as nat);
    if d % 2 == 1 {
        lemma_and_complement(((d - 1) / 2) as nat, (n - 1) as nat);
    } else {
        lemma_and_negation(d / 2, (n - 1) as nat);
        lemma_pow2_unfold(trailing_zeros_of(d));
    }
}

} // verus!
