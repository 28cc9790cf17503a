//! Which bits of a packed plane carry data.
//!
//! A plane of `2^m` bits is cut into blocks of `2^k_log` bits; in each block only
//! the first `useful_bits_per_block` may be set.
use crate::multilinear::power_of_two;
use vstd::arithmetic::power2::{lemma_pow2_adds, lemma_pow2_pos, pow2};
use vstd::prelude::*;

verus! {

/// The number of variables that the univariate skip binds at once.
pub const K_SKIP: usize = 6;

/// The block geometry of a packed plane.
#[derive(Clone, Copy, Debug, PartialEq, Eq, Structural)]
pub struct PaddingSpec {
    pub k_log: usize,
    pub useful_bits_per_block: usize,
}

/// Bit `i` of a byte.
pub open spec fn bit_of(byte: u8, i: int) -> bool {
    (byte >> (i as u8)) & 1u8 == 1u8
}

/// The geometry of a plane of `2^m` bits without padding: one block, all of it useful.
pub open spec fn dense_spec(m: nat) -> PaddingSpec {
    PaddingSpec { k_log: m as usize, useful_bits_per_block: pow2(m) as usize }
}

impl PaddingSpec {
    /// The geometry fits a plane of `2^m` bits, and a block holds whole row pairs.
    pub open spec fn valid(self, m: nat) -> bool {
        &&& 7 <= self.k_log <= m
        &&& self.useful_bits_per_block <= pow2(self.k_log as nat)
    }

    /// The number of row pairs in a block; a row has 64 bits.
    pub open spec fn pairs_per_block(self) -> int {
        pow2((self.k_log - 7) as nat) as int
    }

    /// Whether some bit of row pair `pair` lies in the useful part of its block.
    pub open spec fn pair_is_useful(self, pair: int) -> bool {
        (pair % self.pairs_per_block()) * 128 < self.useful_bits_per_block
    }

    /// All bits outside the useful parts are zero.
    pub open spec fn zero_padded(self, plane: Seq<u8>) -> bool {
        forall|x: int|
            0 <= x < 8 * plane.len() && x % (pow2(self.k_log as nat) as int)
                >= self.useful_bits_per_block ==> !#[trigger] bit_of(plane[x / 8], x % 8)
    }

    /// The geometry without padding: one block, all of it useful.
    pub fn dense(m: usize) -> (spec: PaddingSpec)
        requires
            pow2(m as nat) <= usize::MAX,
        ensures
            spec == dense_spec(m as nat),
            spec.k_log == m,
            spec.useful_bits_per_block == pow2(m as nat),
    {
        PaddingSpec { k_log: m, useful_bits_per_block: power_of_two(m) }
    }

    /// The period of the skip pattern over row pairs, and how many pairs at the
    /// start of each period hold useful bits.
    pub fn round2_pair_skip(&self) -> (r: (usize, usize))
        requires
            self.k_log >= 7,
            pow2(self.k_log as nat) <= usize::MAX,
        ensures
            r.0 == self.pairs_per_block(),
            r.0 >= 1,
            128 * r.0 == pow2(self.k_log as nat),
            self.useful_bits_per_block <= 128 * r.1 < self.useful_bits_per_block + 128,
            forall|pair: int|
                0 <= pair ==> (pair % (r.0 as int) < r.1) == #[trigger] self.pair_is_useful(pair),
    {
        proof {
            lemma_pow2_adds((self.k_log - 7) as nat, 7);
            lemma_pow2_pos((self.k_log - 7) as nat);
            vstd::arithmetic::power2::lemma2_to64();
            assert(pow2((self.k_log - 7) as nat) <= pow2(self.k_log as nat)) by (nonlinear_arith)
                requires
                    pow2(self.k_log as nat) == pow2((self.k_log - 7) as nat) * pow2(7),
                    pow2(7) == 128,
            ;
        }
        let period = power_of_two(self.k_log - 7);
        let bits = self.useful_bits_per_block;
        let useful = bits / 128 + (if bits % 128 != 0 { 1 } else { 0 });
        (period, useful)
    }
}

/// A dense geometry skips nothing.
pub proof fn law_dense_skips_nothing(m: nat, pair: int)
    requires
        m >= 7,
        m <= usize::MAX,
        pow2(m) <= usize::MAX,
        0 <= pair,
    ensures
        dense_spec(m).pair_is_useful(pair),
{
    let spec = dense_spec(m);
    lemma_pow2_adds((m - 7) as nat, 7);
    lemma_pow2_pos((m - 7) as nat);
    vstd::arithmetic::power2::lemma2_to64();
    let period = spec.pairs_per_block();
    assert(pow2(m) == period * 128);
    assert(0 <= pair % period < period) by (nonlinear_arith)
        requires
            period > 0,
    ;
}

/// Bit `i` of a byte is the digit of `2^i`.
pub proof fn law_bit_of(byte: u8, i: int)
    requires
        0 <= i < 8,
    ensures
        bit_of(byte, i) == ((byte as int / pow2(i as nat) as int) % 2 == 1),
{
    let k = i as u8;
    let p = 1u8 << k;
    assert(((byte >> k) & 1u8 == 1u8) == ((byte / p) % 2 == 1) && p == (if k == 0 {
        1u8
    } else if k == 1 {
        2
    } else if k == 2 {
        4
    } else if k == 3 {
        8
    } else if k == 4 {
        16
    } else if k == 5 {
        32
    } else if k == 6 {
        64
    } else {
        128
    })) by (bit_vector)
        requires
            k < 8,
            p == 1u8 << k,
    ;
    vstd::arithmetic::power2::lemma2_to64();
}

} // verus!
