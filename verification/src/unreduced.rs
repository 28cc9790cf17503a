//! Products before reduction.
//!
//! The product of two elements is first a polynomial of degree below 255. Sums of
//! products can be collected in that form and reduced once.
use crate::field::{
    coeff, lemma_coeff_xor, lemma_mul_upto_times_x_pow, lemma_one_mul, lemma_times_x_linear,
    lemma_times_x_pow_linear, lemma_times_x_pow_shift, lemma_x_pow_of_one, lemma_xor_laws, mul_upto,
    times_x, times_x_pow, F128,
};
use vstd::arithmetic::power2::{lemma2_to64, lemma_pow2_unfold, pow2};
use vstd::prelude::*;

verus! {

/// A polynomial over GF(2) of degree below 256: `lo + X^128 * hi`.
#[derive(Clone, Copy, Debug, PartialEq, Eq, Structural)]
pub struct F256Unreduced {
    pub lo: u128,
    pub hi: u128,
}

/// The sum of two polynomials.
pub open spec fn poly_add(p: F256Unreduced, q: F256Unreduced) -> F256Unreduced {
    F256Unreduced { lo: p.lo ^ q.lo, hi: p.hi ^ q.hi }
}

/// A polynomial times `X`, without its coefficient of `X^255`.
pub open spec fn poly_shift(p: F256Unreduced) -> F256Unreduced {
    F256Unreduced { lo: p.lo << 1u128, hi: (p.hi << 1u128) | (p.lo >> 127u128) }
}

/// A polynomial of degree below 128 times `X^n`.
pub open spec fn poly_times_x_pow(a: u128, n: nat) -> F256Unreduced
    decreases n,
{
    if n == 0 {
        F256Unreduced { lo: a, hi: 0 }
    } else {
        poly_shift(poly_times_x_pow(a, (n - 1) as nat))
    }
}

/// The sum over `i < n` of `b_i * X^i * a`, as a polynomial.
pub open spec fn poly_mul_upto(a: u128, b: u128, n: nat) -> F256Unreduced
    decreases n,
{
    if n == 0 {
        F256Unreduced { lo: 0, hi: 0 }
    } else {
        poly_add(
            poly_mul_upto(a, b, (n - 1) as nat),
            if coeff(b, (n - 1) as u128) {
                poly_times_x_pow(a, (n - 1) as nat)
            } else {
                F256Unreduced { lo: 0, hi: 0 }
            },
        )
    }
}

/// The element that a polynomial stands for: `X^128` acts as in the field.
pub open spec fn reduced(p: F256Unreduced) -> F128 {
    F128 { bits: p.lo ^ times_x_pow(p.hi, 128) }
}

impl F256Unreduced {
    /// The polynomial zero.
    pub fn zero() -> (p: F256Unreduced)
        ensures
            p == (F256Unreduced { lo: 0, hi: 0 }),
            reduced(p) == F128::zero(),
    {
        proof {
            lemma_times_x_pow_linear(0, 0, 128);
            lemma_xor_laws(0, 0, 0, 0);
        }
        F256Unreduced { lo: 0, hi: 0 }
    }

    /// The sum of two polynomials.
    pub fn plus(self, other: F256Unreduced) -> (p: F256Unreduced)
        ensures
            p == poly_add(self, other),
    {
        F256Unreduced { lo: self.lo ^ other.lo, hi: self.hi ^ other.hi }
    }

    /// Replaces `X^128` by `X^7 + X^2 + X + 1` until the degree is below 128.
    pub fn reduce(self) -> (r: F128)
        ensures
            r == reduced(self),
    {
        let low = F128 { bits: self.lo };
        let high = F128 { bits: self.hi };
        let fold = F128::new(0x87, 0);
        proof {
            lemma_x_pow_of_128();
            assert(((0u64 as u128) << 64u128) | (0x87u64 as u128) == 0x87u128) by (bit_vector);
            reveal(F128::spec_mul);
            lemma_mul_upto_times_x_pow(1, self.hi, 128, 128);
            lemma_one_mul(self.hi);
        }
        low + fold * high
    }
}

impl F128 {
    /// The product as a polynomial.
    pub fn mul_unreduced(self, other: F128) -> (p: F256Unreduced)
        ensures
            p == poly_mul_upto(self.bits, other.bits, 128),
            reduced(p) == self * other,
    {
        let mut acc = F256Unreduced { lo: 0, hi: 0 };
        let mut power = F256Unreduced { lo: self.bits, hi: 0 };
        let mut i: u128 = 0;
        while i < 128
            invariant
                i <= 128,
                power == poly_times_x_pow(self.bits, i as nat),
                acc == poly_mul_upto(self.bits, other.bits, i as nat),
            decreases 128 - i,
        {
            if (other.bits >> i) & 1u128 == 1u128 {
                acc = acc.plus(power);
            } else {
                proof {
                    lemma_xor_laws(acc.lo, 0, 0, 0);
                    lemma_xor_laws(acc.hi, 0, 0, 0);
                }
            }
            power = F256Unreduced {
                lo: power.lo << 1u128,
                hi: (power.hi << 1u128) | (power.lo >> 127u128),
            };
            i = i + 1;
        }
        proof {
            law_unreduced_product(self, other);
        }
        acc
    }
}

proof fn lemma_x_pow_of_128()
    ensures
        times_x_pow(1, 128) == 0x87,
{
    lemma_x_pow_of_one(127);
    assert(times_x(1u128 << 127u128) == 0x87) by (bit_vector);
}

/// Reduction is additive: collected products can be reduced once.
pub proof fn law_reduction_is_additive(p: F256Unreduced, q: F256Unreduced)
    ensures
        reduced(poly_add(p, q)) == reduced(p) + reduced(q),
{
    lemma_times_x_pow_linear(p.hi, q.hi, 128);
    lemma_xor_laws(p.lo, q.lo, times_x_pow(p.hi, 128), times_x_pow(q.hi, 128));
}

/// The high half of `X^n * a` has degree below `n`.
proof fn lemma_high_half(a: u128, n: nat)
    requires
        n <= 127,
    ensures
        poly_times_x_pow(a, n).hi >> (n as u128) == 0,
    decreases n,
{
    if n == 0 {
        assert(0u128 >> 0u128 == 0) by (bit_vector);
    } else {
        lemma_high_half(a, (n - 1) as nat);
        let p = poly_times_x_pow(a, (n - 1) as nat);
        let (lo, hi, k) = (p.lo, p.hi, (n - 1) as u128);
        assert(((hi << 1u128) | (lo >> 127u128)) >> ((k + 1) as u128) == 0) by (bit_vector)
            requires
                hi >> k == 0,
                k < 127,
        ;
    }
}

proof fn lemma_shift_reduces(p: F256Unreduced)
    requires
        !coeff(p.hi, 127),
    ensures
        reduced(poly_shift(p)).bits == times_x(reduced(p).bits),
{
    let (lo, hi) = (p.lo, p.hi);
    let carry = lo >> 127u128;
    assert((hi << 1u128) | (lo >> 127u128) == times_x(hi) ^ (lo >> 127u128)) by (bit_vector)
        requires
            !coeff(hi, 127),
    ;
    lemma_times_x_pow_linear(times_x(hi), carry, 128);
    lemma_times_x_pow_shift(hi, 128);
    lemma_x_pow_of_128();
    lemma_times_x_pow_linear(0, 0, 128);
    assert(carry == (if coeff(lo, 127) {
        1u128
    } else {
        0u128
    })) by (bit_vector)
        requires
            carry == lo >> 127u128,
    ;
    let t = times_x_pow(hi, 128);
    lemma_times_x_linear(lo, t);
    let r = times_x_pow(carry, 128);
    assert(times_x(lo) == (lo << 1u128) ^ r);
    lemma_xor_laws(lo << 1u128, r, times_x(t), 0);
    lemma_xor_laws(r, times_x(t), 0, 0);
}

/// `X^n * a` can be shifted once more.
proof fn lemma_top_is_free(a: u128, n: nat)
    requires
        n < 127,
    ensures
        !coeff(poly_times_x_pow(a, n).hi, 127),
{
    lemma_high_half(a, n);
    let (hi, k) = (poly_times_x_pow(a, n).hi, n as u128);
    assert(!coeff(hi, 127)) by (bit_vector)
        requires
            hi >> k == 0,
            k < 127,
    ;
}

proof fn lemma_power_reduces(a: u128, n: nat)
    requires
        n <= 127,
    ensures
        reduced(poly_times_x_pow(a, n)).bits == times_x_pow(a, n),
    decreases n,
{
    if n == 0 {
        lemma_times_x_pow_linear(0, 0, 128);
        lemma_xor_laws(a, 0, 0, 0);
    } else {
        let m = (n - 1) as nat;
        lemma_power_reduces(a, m);
        lemma_top_is_free(a, m);
        lemma_shift_reduces(poly_times_x_pow(a, m));
    }
}

proof fn lemma_product_reduces(a: u128, b: u128, n: nat)
    requires
        n <= 128,
    ensures
        reduced(poly_mul_upto(a, b, n)).bits == mul_upto(a, b, n),
    decreases n,
{
    lemma_times_x_pow_linear(0, 0, 128);
    lemma_xor_laws(0, 0, 0, 0);
    if n > 0 {
        let m = (n - 1) as nat;
        lemma_product_reduces(a, b, m);
        lemma_power_reduces(a, m);
        let t = if coeff(b, m as u128) {
            poly_times_x_pow(a, m)
        } else {
            F256Unreduced { lo: 0, hi: 0 }
        };
        law_reduction_is_additive(poly_mul_upto(a, b, m), t);
    }
}

/// The reduction of an unreduced product is the product.
pub proof fn law_unreduced_product(a: F128, b: F128)
    ensures
        reduced(poly_mul_upto(a.bits, b.bits, 128)) == a * b,
{
    reveal(F128::spec_mul);
    lemma_product_reduces(a.bits, b.bits, 128);
}

/// A polynomial's coefficients as the digits of a number.
pub open spec fn digits(p: F256Unreduced) -> int {
    p.hi * 0x1_0000_0000_0000_0000_0000_0000_0000_0000 + p.lo
}

proof fn lemma_shift_doubles(p: F256Unreduced)
    requires
        !coeff(p.hi, 127),
    ensures
        digits(poly_shift(p)) == 2 * digits(p),
{
    let (lo, hi) = (p.lo, p.hi);
    let carry = lo >> 127u128;
    assert((hi << 1u128) | carry == 2 * hi + carry && (lo << 1u128)
        + 0x1_0000_0000_0000_0000_0000_0000_0000_0000 * carry == 2 * lo) by (bit_vector)
        requires
            !coeff(hi, 127),
            carry == lo >> 127u128,
    ;
}

proof fn lemma_power_digits(a: u128, n: nat)
    requires
        n <= 127,
    ensures
        digits(poly_times_x_pow(a, n)) == a * pow2(n),
    decreases n,
{
    lemma2_to64();
    if n > 0 {
        let m = (n - 1) as nat;
        lemma_power_digits(a, m);
        lemma_top_is_free(a, m);
        lemma_shift_doubles(poly_times_x_pow(a, m));
        lemma_pow2_unfold(n);
        assert(2 * (a * pow2(m)) == a * pow2(n)) by (nonlinear_arith)
            requires
                pow2(n) == 2 * pow2(m),
        ;
    } else {
        assert(a * pow2(0) == a) by (nonlinear_arith)
            requires
                pow2(0) == 1,
        ;
    }
}

proof fn lemma_one_term(a: u128, k: u128, n: nat)
    requires
        k < 128,
        n <= 128,
    ensures
        poly_mul_upto(a, 1u128 << k, n) == (if k < n {
            poly_times_x_pow(a, k as nat)
        } else {
            F256Unreduced { lo: 0, hi: 0 }
        }),
    decreases n,
{
    if n > 0 {
        let i = (n - 1) as u128;
        lemma_one_term(a, k, (n - 1) as nat);
        assert(coeff(1u128 << k, i) == (i == k)) by (bit_vector)
            requires
                i < 128,
                k < 128,
        ;
        let p = poly_times_x_pow(a, k as nat);
        lemma_xor_laws(p.lo, 0, 0, 0);
        lemma_xor_laws(p.hi, 0, 0, 0);
        lemma_xor_laws(0, 0, 0, 0);
    }
}

/// Nothing is reduced in an unreduced product: as numbers, a product with `X^n` is the product
/// with `2^n`.
pub proof fn law_unreduced_product_by_a_power(a: F128, n: nat)
    requires
        n < 128,
    ensures
        digits(poly_mul_upto(a.bits, 1u128 << (n as u128), 128)) == a.bits * pow2(n),
{
    lemma_one_term(a.bits, n as u128, 128);
    lemma_power_digits(a.bits, n);
}

/// Unreduced products add up: the product with a sum is the sum of the products.
pub proof fn law_unreduced_products_add(a: F128, b: F128, c: F128)
    ensures
        poly_mul_upto(a.bits, (b + c).bits, 128) == poly_add(
            poly_mul_upto(a.bits, b.bits, 128),
            poly_mul_upto(a.bits, c.bits, 128),
        ),
{
    lemma_products_add(a.bits, b.bits, c.bits, 128);
}

proof fn lemma_products_add(a: u128, b: u128, c: u128, n: nat)
    requires
        n <= 128,
    ensures
        poly_mul_upto(a, b ^ c, n) == poly_add(poly_mul_upto(a, b, n), poly_mul_upto(a, c, n)),
    decreases n,
{
    lemma_xor_laws(0, 0, 0, 0);
    if n > 0 {
        let m = (n - 1) as nat;
        lemma_products_add(a, b, c, m);
        lemma_coeff_xor(b, c, m as u128);
        let p = poly_times_x_pow(a, m);
        let none = F256Unreduced { lo: 0, hi: 0 };
        let tb = if coeff(b, m as u128) {
            p
        } else {
            none
        };
        let tc = if coeff(c, m as u128) {
            p
        } else {
            none
        };
        let (x, y) = (poly_mul_upto(a, b, m), poly_mul_upto(a, c, m));
        lemma_xor_laws(x.lo, y.lo, tb.lo, tc.lo);
        lemma_xor_laws(x.hi, y.hi, tb.hi, tc.hi);
        lemma_xor_laws(p.lo, 0, 0, 0);
        lemma_xor_laws(p.hi, 0, 0, 0);
    }
}

} // verus!
