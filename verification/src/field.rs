//! The field GF(2^128) in the GHASH polynomial basis.
//!
//! An element is a polynomial over GF(2) of degree below 128; bit `i` of the
//! 128-bit word is the coefficient of `X^i`. Addition is exclusive or, and
//! multiplication is taken modulo `X^128 + X^7 + X^2 + X + 1`.
use vstd::prelude::*;

verus! {

/// An element of GF(2^128).
#[derive(Clone, Copy, Debug, PartialEq, Eq, Structural)]
pub struct F128 {
    /// Coefficients, the constant term in the least significant bit.
    pub bits: u128,
}

/// Whether the coefficient of `X^i` is one.
pub open spec fn coeff(a: u128, i: u128) -> bool {
    (a >> i) & 1u128 == 1u128
}

/// Multiplication by `X`: shift up, and replace `X^128` by `X^7 + X^2 + X + 1`.
pub open spec fn times_x(a: u128) -> u128 {
    (a << 1u128) ^ (if coeff(a, 127u128) { 0x87u128 } else { 0u128 })
}

/// Multiplication by `X^n`.
pub open spec fn times_x_pow(a: u128, n: nat) -> u128
    decreases n,
{
    if n == 0 { a } else { times_x(times_x_pow(a, (n - 1) as nat)) }
}

/// The sum over `i < n` of `b_i * X^i * a`.
pub open spec fn mul_upto(a: u128, b: u128, n: nat) -> u128
    decreases n,
{
    if n == 0 {
        0
    } else {
        mul_upto(a, b, (n - 1) as nat) ^ (if coeff(b, (n - 1) as u128) {
            times_x_pow(a, (n - 1) as nat)
        } else {
            0
        })
    }
}

impl F128 {
    /// The additive identity.
    #[verifier::allow_in_spec]
    pub fn zero() -> F128
        returns
            (F128 { bits: 0 }),
    {
        F128 { bits: 0 }
    }

    /// The multiplicative identity.
    #[verifier::allow_in_spec]
    pub fn one() -> F128
        returns
            (F128 { bits: 1 }),
    {
        F128 { bits: 1 }
    }

    pub open spec fn spec_add(self, other: F128) -> F128 {
        F128 { bits: self.bits ^ other.bits }
    }

    /// The product: `b(X) * a`, with `X` acting by `times_x`.
    #[verifier::opaque]
    pub open spec fn spec_mul(self, other: F128) -> F128 {
        F128 { bits: mul_upto(self.bits, other.bits, 128) }
    }

    /// The element with the given low and high coefficient words.
    pub fn new(lo: u64, hi: u64) -> (r: F128)
        ensures
            r.bits == ((hi as u128) << 64u128) | (lo as u128),
            r.bits == 0x1_0000_0000_0000_0000 * hi + lo,
    {
        proof {
            law_word_pair(lo, hi);
        }
        F128 { bits: ((hi as u128) << 64u128) | (lo as u128) }
    }
}

impl core::ops::Add for F128 {
    type Output = F128;

    fn add(self, other: F128) -> (r: F128) {
        F128 { bits: self.bits ^ other.bits }
    }
}

impl vstd::std_specs::ops::AddSpecImpl for F128 {
    open spec fn obeys_add_spec() -> bool {
        true
    }

    open spec fn add_req(self, other: F128) -> bool {
        true
    }

    open spec fn add_spec(self, other: F128) -> F128 {
        self.spec_add(other)
    }
}

impl core::ops::Mul for F128 {
    type Output = F128;

    fn mul(self, other: F128) -> (r: F128) {
        reveal(F128::spec_mul);
        let mut acc: u128 = 0;
        let mut power: u128 = self.bits;
        let mut i: u128 = 0;
        while i < 128
            invariant
                i <= 128,
                power == times_x_pow(self.bits, i as nat),
                acc == mul_upto(self.bits, other.bits, i as nat),
            decreases 128 - i,
        {
            if (other.bits >> i) & 1u128 == 1u128 {
                acc = acc ^ power;
            } else {
                assert(acc ^ 0u128 == acc) by (bit_vector);
            }
            let reduction: u128 = if (power >> 127u128) & 1u128 == 1u128 {
                0x87u128
            } else {
                0u128
            };
            power = (power << 1u128) ^ reduction;
            i = i + 1;
        }
        F128 { bits: acc }
    }
}

impl vstd::std_specs::ops::MulSpecImpl for F128 {
    open spec fn obeys_mul_spec() -> bool {
        true
    }

    open spec fn mul_req(self, other: F128) -> bool {
        true
    }

    open spec fn mul_spec(self, other: F128) -> F128 {
        self.spec_mul(other)
    }
}

// Exclusive or as a commutative group.

pub proof fn lemma_xor_laws(a: u128, b: u128, c: u128, d: u128)
    ensures
        a ^ b == b ^ a,
        (a ^ b) ^ c == a ^ (b ^ c),
        a ^ 0u128 == a,
        0u128 ^ a == a,
        a ^ a == 0u128,
        (a ^ b) ^ (c ^ d) == (a ^ c) ^ (b ^ d),
{
    assert(a ^ b == b ^ a && (a ^ b) ^ c == a ^ (b ^ c) && a ^ 0u128 == a && 0u128 ^ a == a && a ^ a
        == 0u128 && (a ^ b) ^ (c ^ d) == (a ^ c) ^ (b ^ d)) by (bit_vector);
}

// `times_x` is linear, and so are its powers and `mul_upto` in each argument.

pub proof fn lemma_times_x_linear(a: u128, b: u128)
    ensures
        times_x(a ^ b) == times_x(a) ^ times_x(b),
        times_x(0) == 0,
{
    assert(times_x(a ^ b) == times_x(a) ^ times_x(b)) by (bit_vector);
    assert(times_x(0) == 0) by (bit_vector);
}

pub proof fn lemma_times_x_pow_linear(a: u128, b: u128, n: nat)
    ensures
        times_x_pow(a ^ b, n) == times_x_pow(a, n) ^ times_x_pow(b, n),
        times_x_pow(0, n) == 0,
    decreases n,
{
    if n > 0 {
        let m = (n - 1) as nat;
        lemma_times_x_pow_linear(a, b, m);
        lemma_times_x_linear(times_x_pow(a, m), times_x_pow(b, m));
    }
}

pub proof fn lemma_times_x_pow_shift(a: u128, n: nat)
    ensures
        times_x_pow(times_x(a), n) == times_x(times_x_pow(a, n)),
    decreases n,
{
    if n > 0 {
        lemma_times_x_pow_shift(a, (n - 1) as nat);
    }
}

proof fn lemma_mul_upto_left(a: u128, b: u128, c: u128, n: nat)
    ensures
        mul_upto(a ^ b, c, n) == mul_upto(a, c, n) ^ mul_upto(b, c, n),
        mul_upto(0, c, n) == 0,
    decreases n,
{
    lemma_xor_laws(0, 0, 0, 0);
    if n > 0 {
        let m = (n - 1) as nat;
        lemma_mul_upto_left(a, b, c, m);
        lemma_times_x_pow_linear(a, b, m);
        if coeff(c, m as u128) {
            lemma_xor_laws(
                mul_upto(a, c, m),
                mul_upto(b, c, m),
                times_x_pow(a, m),
                times_x_pow(b, m),
            );
        } else {
            lemma_xor_laws(mul_upto(a, c, m), mul_upto(b, c, m), 0, 0);
            lemma_xor_laws(mul_upto(b, c, m), 0, 0, 0);
            lemma_xor_laws(mul_upto(a ^ b, c, m), 0, 0, 0);
        }
    }
}

pub(crate) proof fn lemma_coeff_xor(b: u128, c: u128, i: u128)
    ensures
        i < 128 ==> coeff(b ^ c, i) == (coeff(b, i) != coeff(c, i)),
{
    assert(i < 128 ==> coeff(b ^ c, i) == (coeff(b, i) != coeff(c, i))) by (bit_vector);
}

proof fn lemma_mul_upto_right(a: u128, b: u128, c: u128, n: nat)
    requires
        n <= 128,
    ensures
        mul_upto(a, b ^ c, n) == mul_upto(a, b, n) ^ mul_upto(a, c, n),
        mul_upto(a, 0, n) == 0,
    decreases n,
{
    lemma_xor_laws(0, 0, 0, 0);
    if n > 0 {
        let m = (n - 1) as nat;
        lemma_mul_upto_right(a, b, c, m);
        lemma_coeff_xor(b, c, m as u128);
        lemma_coeff_xor(b, b, m as u128);
        lemma_xor_laws(b, 0, 0, 0);
        let p = times_x_pow(a, m);
        let tb = if coeff(b, m as u128) { p } else { 0 };
        let tc = if coeff(c, m as u128) { p } else { 0 };
        lemma_xor_laws(mul_upto(a, b, m), mul_upto(a, c, m), tb, tc);
        lemma_xor_laws(p, 0, 0, 0);
    }
}

proof fn lemma_mul_upto_times_x(a: u128, b: u128, n: nat)
    ensures
        mul_upto(times_x(a), b, n) == times_x(mul_upto(a, b, n)),
    decreases n,
{
    if n == 0 {
        lemma_times_x_linear(0, 0);
    } else {
        let m = (n - 1) as nat;
        lemma_mul_upto_times_x(a, b, m);
        lemma_times_x_pow_shift(a, m);
        let t = if coeff(b, m as u128) { times_x_pow(a, m) } else { 0 };
        lemma_times_x_linear(mul_upto(a, b, m), t);
    }
}

pub proof fn lemma_mul_upto_times_x_pow(a: u128, b: u128, k: nat, n: nat)
    ensures
        mul_upto(times_x_pow(a, k), b, n) == times_x_pow(mul_upto(a, b, n), k),
    decreases k,
{
    if k > 0 {
        let j = (k - 1) as nat;
        lemma_mul_upto_times_x_pow(a, b, j, n);
        lemma_mul_upto_times_x(times_x_pow(a, j), b, n);
    }
}

// One is the identity on the left: `1 * b` collects the coefficients of `b`.

pub proof fn lemma_x_pow_of_one(n: nat)
    requires
        n < 128,
    ensures
        times_x_pow(1, n) == 1u128 << (n as u128),
    decreases n,
{
    if n == 0 {
        assert(1u128 << 0u128 == 1) by (bit_vector);
    } else {
        lemma_x_pow_of_one((n - 1) as nat);
        let k = (n - 1) as u128;
        assert(k < 127 ==> times_x(1u128 << k) == 1u128 << ((k + 1) as u128)) by (bit_vector);
    }
}

/// The word whose lowest `n` bits are set.
spec fn low_mask(n: nat) -> u128
    decreases n,
{
    if n == 0 { 0 } else { (low_mask((n - 1) as nat) << 1u128) | 1 }
}

proof fn lemma_low_mask_step(n: nat)
    requires
        n < 128,
    ensures
        low_mask(n + 1) == low_mask(n) | (1u128 << (n as u128)),
        low_mask(n) & (1u128 << (n as u128)) == 0,
    decreases n,
{
    reveal_with_fuel(low_mask, 2);
    if n == 0 {
        assert((0u128 << 1u128) | 1 == 0u128 | (1u128 << 0u128) && 0u128 & (1u128 << 0u128) == 0)
            by (bit_vector);
    } else {
        lemma_low_mask_step((n - 1) as nat);
        let k = (n - 1) as u128;
        let m = low_mask((n - 1) as nat);
        let p = 1u128 << k;
        let q = 1u128 << (n as u128);
        assert(q == p << 1u128) by (bit_vector)
            requires
                k < 127,
                p == 1u128 << k,
                q == 1u128 << ((k + 1) as u128),
        ;
        assert((((m | p) << 1u128) | 1) == ((m << 1u128) | 1) | q
            && ((m << 1u128) | 1) & q == 0) by (bit_vector)
            requires
                m & p == 0,
                q == p << 1u128,
        ;
    }
}

proof fn lemma_one_upto(b: u128, n: nat)
    requires
        n <= 128,
    ensures
        mul_upto(1, b, n) == b & low_mask(n),
    decreases n,
{
    if n == 0 {
        assert(b & 0 == 0) by (bit_vector);
    } else {
        let k = (n - 1) as u128;
        lemma_one_upto(b, (n - 1) as nat);
        lemma_x_pow_of_one((n - 1) as nat);
        lemma_low_mask_step((n - 1) as nat);
        let m = low_mask((n - 1) as nat);
        let p = 1u128 << k;
        assert(b & p == (if coeff(b, k) { p } else { 0u128 })) by (bit_vector)
            requires
                k < 128,
                p == 1u128 << k,
        ;
        assert(b & (m | p) == (b & m) ^ (b & p)) by (bit_vector)
            requires
                m & p == 0,
        ;
    }
}

proof fn lemma_low_mask_value(n: nat)
    requires
        1 <= n <= 128,
    ensures
        low_mask(n) == 0xffff_ffff_ffff_ffff_ffff_ffff_ffff_ffffu128 >> ((128 - n) as u128),
    decreases n,
{
    if n == 1 {
        reveal_with_fuel(low_mask, 2);
        assert((0u128 << 1u128) | 1 == 0xffff_ffff_ffff_ffff_ffff_ffff_ffff_ffffu128 >> 127u128)
            by (bit_vector);
    } else {
        lemma_low_mask_value((n - 1) as nat);
        let s = (128 - n) as u128;
        assert(s < 127 ==> ((0xffff_ffff_ffff_ffff_ffff_ffff_ffff_ffffu128 >> ((s + 1) as u128))
            << 1u128) | 1 == 0xffff_ffff_ffff_ffff_ffff_ffff_ffff_ffffu128 >> s) by (bit_vector);
    }
}

pub proof fn lemma_one_mul(b: u128)
    ensures
        mul_upto(1, b, 128) == b,
{
    lemma_one_upto(b, 128);
    lemma_low_mask_value(128);
    assert(b & (0xffff_ffff_ffff_ffff_ffff_ffff_ffff_ffffu128 >> 0u128) == b) by (bit_vector);
}

proof fn lemma_commute_upto(a: u128, b: u128, n: nat)
    requires
        n <= 128,
    ensures
        mul_upto(mul_upto(1, a, n), b, 128) == mul_upto(b, a, n),
    decreases n,
{
    if n == 0 {
        lemma_mul_upto_left(0, 0, b, 128);
    } else {
        let m = (n - 1) as nat;
        lemma_commute_upto(a, b, m);
        lemma_one_mul(b);
        lemma_mul_upto_times_x_pow(1, b, m, 128);
        lemma_mul_upto_left(0, 0, b, 128);
        let t = if coeff(a, m as u128) { times_x_pow(1, m) } else { 0 };
        lemma_mul_upto_left(mul_upto(1, a, m), t, b, 128);
    }
}

pub proof fn lemma_mul_words_commute(a: u128, b: u128)
    ensures
        mul_upto(a, b, 128) == mul_upto(b, a, 128),
{
    lemma_commute_upto(a, b, 128);
    lemma_one_mul(a);
}

proof fn lemma_associate_upto(a: u128, b: u128, c: u128, n: nat)
    requires
        n <= 128,
    ensures
        mul_upto(a, mul_upto(b, c, n), 128) == mul_upto(mul_upto(a, b, 128), c, n),
    decreases n,
{
    if n == 0 {
        lemma_mul_upto_right(a, 0, 0, 128);
    } else {
        let m = (n - 1) as nat;
        lemma_associate_upto(a, b, c, m);
        let p = times_x_pow(b, m);
        lemma_mul_words_commute(a, p);
        lemma_mul_upto_times_x_pow(b, a, m, 128);
        lemma_mul_words_commute(a, b);
        lemma_mul_upto_right(a, 0, 0, 128);
        let t = if coeff(c, m as u128) { p } else { 0 };
        lemma_mul_upto_right(a, mul_upto(b, c, m), t, 128);
    }
}

// The field laws, over elements.

/// Addition is commutative and associative, zero is its identity, and every
/// element is its own negative.
pub proof fn law_add(a: F128, b: F128, c: F128)
    ensures
        a + b == b + a,
        (a + b) + c == a + (b + c),
        a + F128::zero() == a,
        a + a == F128::zero(),
{
    lemma_xor_laws(a.bits, b.bits, c.bits, 0);
}

/// The middle terms of a sum of two sums may change places.
pub proof fn lemma_add_exchange(a: F128, b: F128, c: F128, d: F128)
    ensures
        (a + b) + (c + d) == (a + c) + (b + d),
{
    lemma_xor_laws(a.bits, b.bits, c.bits, d.bits);
}

/// Multiplication is commutative.
pub proof fn law_mul_commutes(a: F128, b: F128)
    ensures
        a * b == b * a,
{
    reveal(F128::spec_mul);
    lemma_mul_words_commute(a.bits, b.bits);
}

/// Multiplication is associative.
pub proof fn law_mul_associates(a: F128, b: F128, c: F128)
    ensures
        (a * b) * c == a * (b * c),
{
    reveal(F128::spec_mul);
    lemma_associate_upto(a.bits, b.bits, c.bits, 128);
}

/// Multiplication distributes over addition on both sides.
pub proof fn law_mul_distributes(a: F128, b: F128, c: F128)
    ensures
        a * (b + c) == a * b + a * c,
        (b + c) * a == b * a + c * a,
{
    reveal(F128::spec_mul);
    lemma_mul_upto_right(a.bits, b.bits, c.bits, 128);
    lemma_mul_upto_left(b.bits, c.bits, a.bits, 128);
}

/// One is the multiplicative identity, and zero absorbs.
pub proof fn law_mul_units(a: F128)
    ensures
        F128::one() * a == a,
        a * F128::one() == a,
        F128::zero() * a == F128::zero(),
        a * F128::zero() == F128::zero(),
{
    reveal(F128::spec_mul);
    lemma_one_mul(a.bits);
    lemma_mul_words_commute(1, a.bits);
    lemma_mul_upto_left(0, 0, a.bits, 128);
    lemma_mul_upto_right(a.bits, 0, 0, 128);
}

/// Two factors in front of a third may change places.
pub proof fn lemma_mul_exchange(a: F128, b: F128, c: F128)
    ensures
        a * (b * c) == b * (a * c),
{
    law_mul_associates(a, b, c);
    law_mul_commutes(a, b);
    law_mul_associates(b, a, c);
}

proof fn lemma_mul_by_two(a: u128, n: nat)
    requires
        2 <= n <= 128,
    ensures
        mul_upto(a, 2u128, n) == times_x(a),
    decreases n,
{
    let i = (n - 1) as u128;
    assert(((2u128 >> i) & 1u128 == 1u128) == (i == 1)) by (bit_vector)
        requires
            i < 128,
    ;
    let x = times_x(a);
    assert(x ^ 0u128 == x && 0u128 ^ x == x && 0u128 ^ 0u128 == 0u128 && (2u128 >> 0u128) & 1u128
        == 0u128) by (bit_vector);
    if n == 2 {
        assert(mul_upto(a, 2u128, 0) == 0);
        assert(mul_upto(a, 2u128, 1) == 0u128 ^ 0u128);
        assert(times_x_pow(a, 0) == a);
    } else {
        lemma_mul_by_two(a, (n - 1) as nat);
    }
}

/// Multiplication by the element `X` is a shift, and the coefficient that leaves comes back
/// as `X^7 + X^2 + X + 1`: the field is that of the polynomial `X^128 + X^7 + X^2 + X + 1`.
pub proof fn law_mul_by_x(a: F128)
    ensures
        (a * (F128 { bits: 2 })).bits == (a.bits << 1u128) ^ (if a.bits >> 127u128 == 1 {
            0b1000_0111u128
        } else {
            0
        }),
{
    reveal(F128::spec_mul);
    lemma_mul_by_two(a.bits, 128);
    let b = a.bits;
    assert(((b >> 127u128) & 1u128 == 1u128) == (b >> 127u128 == 1u128)) by (bit_vector);
}

/// Two words beside each other: the value is the low one and `2^64` times the high one.
pub proof fn law_word_pair(lo: u64, hi: u64)
    ensures
        ((hi as u128) << 64u128) | (lo as u128) == 0x1_0000_0000_0000_0000 * hi + lo,
{
    assert(((hi as u128) << 64u128) | (lo as u128) == 0x1_0000_0000_0000_0000u128 * (hi as u128) + (
    lo as u128)) by (bit_vector);
}

/// Elements are added coefficient by coefficient.
pub proof fn law_add_bits(a: F128, b: F128)
    ensures
        (a + b).bits == a.bits ^ b.bits,
{
}

} // verus!
