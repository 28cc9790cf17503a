//! Witness blocks for three Keccak permutations.
//!
//! A block has three planes `z`, `a` and `b` of `K` bits with `z = a & b` bit by
//! bit. For each permutation it holds a word per input lane, with the constant
//! one as second factor, and a word per chi product of every round. A last word
//! pins the constant one; the rest is zero.
use crate::field::F128;
use crate::keccak::{
    apply_chi_iota, apply_linear_layer, chi_left, chi_right, linear_layer, permuted, state_lanes,
    state_to_lanes, Lanes, State, ROUNDS,
};
use crate::multilinear::power_of_two;
use vstd::arithmetic::power2::pow2;
use vstd::prelude::*;

verus! {

/// Permutations per block.
pub const N_SUB: usize = 3;

/// Bits per block and plane.
pub const K: usize = 131072;

/// Elements per block and plane.
pub const BLOCK_ELEMENTS: usize = 1024;

/// Words per block and plane.
pub const BLOCK_WORDS: usize = 2048;

/// Words per permutation: its input lanes, and the products of all rounds.
pub const SUB_WORDS: usize = 625;

/// The word with the constant pin.
pub const PIN_WORD: usize = 1875;

/// One of the three planes.
pub enum Plane {
    Z,
    A,
    B,
}

/// Word `o` of a permutation with input `lanes`.
#[verifier::opaque]
pub open spec fn sub_word(plane: Plane, lanes: Seq<u64>, o: int) -> u64 {
    if o < 25 {
        match plane {
            Plane::B => u64::MAX,
            _ => lanes[o],
        }
    } else {
        let b = linear_layer(permuted(lanes, o / 25 - 1));
        match plane {
            Plane::Z => chi_left(b, o % 25) & chi_right(b, o % 25),
            Plane::A => chi_left(b, o % 25),
            Plane::B => chi_right(b, o % 25),
        }
    }
}

/// Word `w` of a block.
pub open spec fn block_word(plane: Plane, lanes: Seq<Seq<u64>>, w: int) -> u64 {
    if w < PIN_WORD {
        sub_word(plane, lanes[w / (SUB_WORDS as int)], w % (SUB_WORDS as int))
    } else if w == PIN_WORD {
        1
    } else {
        0
    }
}

/// Two words as one element.
pub open spec fn pack_words(lo: u64, hi: u64) -> F128 {
    F128 { bits: ((hi as u128) << 64u128) | (lo as u128) }
}

/// A plane of a block, as elements.
pub open spec fn block_plane(plane: Plane, lanes: Seq<Seq<u64>>) -> Seq<F128> {
    Seq::new(
        BLOCK_ELEMENTS as nat,
        |e: int| pack_words(block_word(plane, lanes, 2 * e), block_word(plane, lanes, 2 * e + 1)),
    )
}

/// The lanes of the permutations of a block.
pub open spec fn block_lanes(lanes: [Lanes; 3]) -> Seq<Seq<u64>> {
    Seq::new(3, |i: int| lanes@[i]@)
}

/// Every word of a block satisfies its constraint: the `z` word is the bitwise
/// product of the `a` word and the `b` word.
pub proof fn law_block_satisfies_constraints(lanes: Seq<Seq<u64>>, w: int)
    requires
        0 <= w < BLOCK_WORDS,
    ensures
        block_word(Plane::Z, lanes, w) == block_word(Plane::A, lanes, w) & block_word(
            Plane::B,
            lanes,
            w,
        ),
{
    reveal(sub_word);
    let v = block_word(Plane::A, lanes, w);
    assert(v & u64::MAX == v && 1u64 & 1u64 == 1u64 && 0u64 & 0u64 == 0u64) by (bit_vector);
}

/// The first `n` words of a permutation.
spec fn sub_words(plane: Plane, lanes: Seq<u64>, n: int) -> Seq<u64> {
    Seq::new(n as nat, |o: int| sub_word(plane, lanes, o))
}

proof fn lemma_push_sub_word(plane: Plane, lanes: Seq<u64>, before: Seq<u64>, n: int, w: u64)
    requires
        0 <= n,
        w == sub_word(plane, lanes, n),
    ensures
        (before + sub_words(plane, lanes, n)).push(w) == before + sub_words(plane, lanes, n + 1),
{
    assert((before + sub_words(plane, lanes, n)).push(w) =~= before + sub_words(
        plane,
        lanes,
        n + 1,
    ));
}

proof fn lemma_chi_word(plane: Plane, lanes: Seq<u64>, round: int, t: int)
    requires
        0 <= round,
        0 <= t < 25,
    ensures
        sub_word(plane, lanes, 25 + 25 * round + t) == ({
            let b = linear_layer(permuted(lanes, round));
            match plane {
                Plane::Z => chi_left(b, t) & chi_right(b, t),
                Plane::A => chi_left(b, t),
                Plane::B => chi_right(b, t),
            }
        }),
{
    reveal(sub_word);
    let o = 25 + 25 * round + t;
    assert(o / 25 - 1 == round && o % 25 == t);
}

/// Appends the chi products of one round to the three planes.
fn push_round(
    mixed: &Lanes,
    round: usize,
    z: &mut Vec<u64>,
    a: &mut Vec<u64>,
    b: &mut Vec<u64>,
    Ghost(lanes): Ghost<Seq<u64>>,
    Ghost(before): Ghost<(Seq<u64>, Seq<u64>, Seq<u64>)>,
)
    requires
        round < ROUNDS,
        mixed@ == linear_layer(permuted(lanes, round as int)),
        old(z)@ == before.0 + sub_words(Plane::Z, lanes, 25 + 25 * round),
        old(a)@ == before.1 + sub_words(Plane::A, lanes, 25 + 25 * round),
        old(b)@ == before.2 + sub_words(Plane::B, lanes, 25 + 25 * round),
    ensures
        final(z)@ == before.0 + sub_words(Plane::Z, lanes, 50 + 25 * round),
        final(a)@ == before.1 + sub_words(Plane::A, lanes, 50 + 25 * round),
        final(b)@ == before.2 + sub_words(Plane::B, lanes, 50 + 25 * round),
{
    let mut t: usize = 0;
    while t < 25
        invariant
            t <= 25,
            round < ROUNDS,
            mixed@ == linear_layer(permuted(lanes, round as int)),
            z@ == before.0 + sub_words(Plane::Z, lanes, 25 + 25 * round + t),
            a@ == before.1 + sub_words(Plane::A, lanes, 25 + 25 * round + t),
            b@ == before.2 + sub_words(Plane::B, lanes, 25 + 25 * round + t),
        decreases 25 - t,
    {
        let row: usize = 5 * (t / 5);
        let left = !mixed[(t % 5 + 1) % 5 + row];
        let right = mixed[(t % 5 + 2) % 5 + row];
        z.push(left & right);
        a.push(left);
        b.push(right);
        proof {
            let o: int = 25 + 25 * round + t;
            assert(left == chi_left(mixed@, t as int) && right == chi_right(mixed@, t as int));
            lemma_chi_word(Plane::Z, lanes, round as int, t as int);
            lemma_chi_word(Plane::A, lanes, round as int, t as int);
            lemma_chi_word(Plane::B, lanes, round as int, t as int);
            lemma_push_sub_word(Plane::Z, lanes, before.0, o, left & right);
            lemma_push_sub_word(Plane::A, lanes, before.1, o, left);
            lemma_push_sub_word(Plane::B, lanes, before.2, o, right);
        }
        t = t + 1;
    }
}

/// Appends the words of one permutation to the three planes.
fn push_sub(lanes: &Lanes, z: &mut Vec<u64>, a: &mut Vec<u64>, b: &mut Vec<u64>)
    ensures
        final(z)@ == old(z)@ + sub_words(Plane::Z, lanes@, SUB_WORDS as int),
        final(a)@ == old(a)@ + sub_words(Plane::A, lanes@, SUB_WORDS as int),
        final(b)@ == old(b)@ + sub_words(Plane::B, lanes@, SUB_WORDS as int),
{
    let ghost before = (z@, a@, b@);
    let mut i: usize = 0;
    assert(z@ =~= before.0 + sub_words(Plane::Z, lanes@, 0));
    assert(a@ =~= before.1 + sub_words(Plane::A, lanes@, 0));
    assert(b@ =~= before.2 + sub_words(Plane::B, lanes@, 0));
    while i < 25
        invariant
            i <= 25,
            z@ == before.0 + sub_words(Plane::Z, lanes@, i as int),
            a@ == before.1 + sub_words(Plane::A, lanes@, i as int),
            b@ == before.2 + sub_words(Plane::B, lanes@, i as int),
        decreases 25 - i,
    {
        z.push(lanes[i]);
        a.push(lanes[i]);
        b.push(u64::MAX);
        proof {
            reveal(sub_word);
            lemma_push_sub_word(Plane::Z, lanes@, before.0, i as int, lanes@[i as int]);
            lemma_push_sub_word(Plane::A, lanes@, before.1, i as int, lanes@[i as int]);
            lemma_push_sub_word(Plane::B, lanes@, before.2, i as int, u64::MAX);
        }
        i = i + 1;
    }
    let mut state: Lanes = *lanes;
    let mut round: usize = 0;
    while round < ROUNDS
        invariant
            round <= ROUNDS,
            state@ == permuted(lanes@, round as int),
            z@ == before.0 + sub_words(Plane::Z, lanes@, 25 + 25 * round),
            a@ == before.1 + sub_words(Plane::A, lanes@, 25 + 25 * round),
            b@ == before.2 + sub_words(Plane::B, lanes@, 25 + 25 * round),
        decreases ROUNDS - round,
    {
        let mixed = apply_linear_layer(&state);
        push_round(&mixed, round, z, a, b, Ghost(lanes@), Ghost(before));
        state = apply_chi_iota(&mixed, round);
        round = round + 1;
    }
}

/// The words of a plane of a block, as far as they are not all zero.
spec fn used_words(plane: Plane, lanes: Seq<Seq<u64>>) -> Seq<u64> {
    Seq::new((PIN_WORD + 1) as nat, |w: int| block_word(plane, lanes, w))
}

proof fn lemma_used_words(plane: Plane, lanes: Seq<Seq<u64>>, words: Seq<u64>)
    requires
        words == (Seq::<u64>::empty() + sub_words(plane, lanes[0], SUB_WORDS as int) + sub_words(
            plane,
            lanes[1],
            SUB_WORDS as int,
        ) + sub_words(plane, lanes[2], SUB_WORDS as int)).push(1),
    ensures
        words == used_words(plane, lanes),
{
    assert forall|w: int| 0 <= w < words.len() implies words[w] == #[trigger] used_words(
        plane,
        lanes,
    )[w] by {
        if w < 625 {
            assert(w / 625 == 0 && w % 625 == w);
        } else if w < 1250 {
            assert(w / 625 == 1 && w % 625 == w - 625);
        } else if w < 1875 {
            assert(w / 625 == 2 && w % 625 == w - 1250);
        }
    }
    assert(words =~= used_words(plane, lanes));
}

/// Packs the words of a plane into `out`, and clears the rest of it.
fn pack_plane(
    words: &Vec<u64>,
    out: &mut [F128],
    Ghost(plane): Ghost<Plane>,
    Ghost(lanes): Ghost<Seq<Seq<u64>>>,
)
    requires
        words@ == used_words(plane, lanes),
        old(out)@.len() == BLOCK_ELEMENTS,
    ensures
        final(out)@ == block_plane(plane, lanes),
{
    let mut e: usize = 0;
    while e < BLOCK_ELEMENTS
        invariant
            e <= BLOCK_ELEMENTS,
            out@.len() == BLOCK_ELEMENTS,
            words@ == used_words(plane, lanes),
            forall|i: int| 0 <= i < e ==> out@[i] == block_plane(plane, lanes)[i],
        decreases BLOCK_ELEMENTS - e,
    {
        let lo: u64 = if 2 * e < words.len() {
            words[2 * e]
        } else {
            0
        };
        let hi: u64 = if 2 * e + 1 < words.len() {
            words[2 * e + 1]
        } else {
            0
        };
        out[e] = F128::new(lo, hi);
        assert(out@[e as int] == block_plane(plane, lanes)[e as int]);
        e = e + 1;
    }
    assert(out@ =~= block_plane(plane, lanes));
}

/// Writes the witness block of three permutations into planes of `K` bits,
/// whatever they held before.
pub fn generate_block_witness_from_lanes_into(
    lanes: &[Lanes; 3],
    z: &mut [F128],
    a: &mut [F128],
    b: &mut [F128],
)
    requires
        old(z)@.len() == BLOCK_ELEMENTS,
        old(a)@.len() == BLOCK_ELEMENTS,
        old(b)@.len() == BLOCK_ELEMENTS,
    ensures
        final(z)@ == block_plane(Plane::Z, block_lanes(*lanes)),
        final(a)@ == block_plane(Plane::A, block_lanes(*lanes)),
        final(b)@ == block_plane(Plane::B, block_lanes(*lanes)),
{
    let ghost inputs = block_lanes(*lanes);
    let mut wz: Vec<u64> = Vec::new();
    let mut wa: Vec<u64> = Vec::new();
    let mut wb: Vec<u64> = Vec::new();
    push_sub(&lanes[0], &mut wz, &mut wa, &mut wb);
    push_sub(&lanes[1], &mut wz, &mut wa, &mut wb);
    push_sub(&lanes[2], &mut wz, &mut wa, &mut wb);
    wz.push(1);
    wa.push(1);
    wb.push(1);
    proof {
        lemma_used_words(Plane::Z, inputs, wz@);
        lemma_used_words(Plane::A, inputs, wa@);
        lemma_used_words(Plane::B, inputs, wb@);
    }
    pack_plane(&wz, z, Ghost(Plane::Z), Ghost(inputs));
    pack_plane(&wa, a, Ghost(Plane::A), Ghost(inputs));
    pack_plane(&wb, b, Ghost(Plane::B), Ghost(inputs));
}

/// The input lanes of permutation `i`: those of the state, or zero past the states.
pub open spec fn input_lanes(states: Seq<State>, i: int) -> Seq<u64> {
    if i < states.len() {
        state_lanes(states[i]@)
    } else {
        Seq::new(25, |j: int| 0u64)
    }
}

/// The inputs of block `block`.
pub open spec fn block_inputs(states: Seq<State>, block: int) -> Seq<Seq<u64>> {
    Seq::new(3, |s: int| input_lanes(states, 3 * block + s))
}

/// A plane of the witness of `blocks` blocks.
pub open spec fn packed_plane(plane: Plane, states: Seq<State>, blocks: int) -> Seq<F128> {
    Seq::new(
        (blocks * (BLOCK_ELEMENTS as int)) as nat,
        |e: int|
            block_plane(plane, block_inputs(states, e / (BLOCK_ELEMENTS as int)))[e % (
            BLOCK_ELEMENTS as int)],
    )
}

/// Every block of a packed witness is the block of its own three inputs. A block
/// past the states is the computation on zero inputs, with its constant pin.
pub proof fn law_packed_blocks(plane: Plane, states: Seq<State>, blocks: int, block: int)
    requires
        0 <= block < blocks,
    ensures
        packed_plane(plane, states, blocks).subrange(1024 * block, 1024 * (block + 1))
            == block_plane(plane, block_inputs(states, block)),
        3 * block >= states.len() ==> block_inputs(states, block) == Seq::new(
            3,
            |s: int| Seq::new(25, |j: int| 0u64),
        ),
        block_word(plane, block_inputs(states, block), PIN_WORD as int) == 1,
{
    let all = packed_plane(plane, states, blocks);
    let one = block_plane(plane, block_inputs(states, block));
    assert(all.subrange(1024 * block, 1024 * (block + 1)) =~= one) by {
        assert forall|e: int| 0 <= e < 1024 implies #[trigger] all[1024 * block + e] == one[e] by {
            assert((1024 * block + e) / 1024 == block && (1024 * block + e) % 1024 == e);
        }
    }
    if 3 * block >= states.len() {
        assert(block_inputs(states, block) =~= Seq::new(
            3,
            |s: int| Seq::new(25, |j: int| 0u64),
        ));
    }
}

fn lanes_or_zero(states: &[State], i: usize) -> (lanes: Lanes)
    ensures
        lanes@ == input_lanes(states@, i as int),
{
    if i < states.len() {
        state_to_lanes(&states[i])
    } else {
        let zero: Lanes = [0; 25];
        assert(zero@ =~= input_lanes(states@, i as int));
        zero
    }
}

/// The packed witness of `states`, three to a block, in `2^log_blocks` blocks.
pub fn generate_witness_with_ab_packed(states: &[State], log_blocks: usize) -> (planes: (
    Vec<F128>,
    Vec<F128>,
    Vec<F128>,
))
    requires
        pow2(log_blocks as nat) * 1024 <= usize::MAX,
        states@.len() <= 3 * pow2(log_blocks as nat),
    ensures
        planes.0@ == packed_plane(Plane::Z, states@, pow2(log_blocks as nat) as int),
        planes.1@ == packed_plane(Plane::A, states@, pow2(log_blocks as nat) as int),
        planes.2@ == packed_plane(Plane::B, states@, pow2(log_blocks as nat) as int),
{
    let blocks = power_of_two(log_blocks);
    let mut z: Vec<F128> = Vec::new();
    let mut a: Vec<F128> = Vec::new();
    let mut b: Vec<F128> = Vec::new();
    let mut block: usize = 0;
    assert(z@ =~= packed_plane(Plane::Z, states@, 0));
    assert(a@ =~= packed_plane(Plane::A, states@, 0));
    assert(b@ =~= packed_plane(Plane::B, states@, 0));
    while block < blocks
        invariant
            block <= blocks,
            blocks * 1024 <= usize::MAX,
            z@ == packed_plane(Plane::Z, states@, block as int),
            a@ == packed_plane(Plane::A, states@, block as int),
            b@ == packed_plane(Plane::B, states@, block as int),
        decreases blocks - block,
    {
        let lanes = [
            lanes_or_zero(states, 3 * block),
            lanes_or_zero(states, 3 * block + 1),
            lanes_or_zero(states, 3 * block + 2),
        ];
        assert(block_lanes(lanes) =~= block_inputs(states@, block as int));
        let mut bz = vec![F128::zero(); BLOCK_ELEMENTS];
        let mut ba = vec![F128::zero(); BLOCK_ELEMENTS];
        let mut bb = vec![F128::zero(); BLOCK_ELEMENTS];
        generate_block_witness_from_lanes_into(
            &lanes,
            bz.as_mut_slice(),
            ba.as_mut_slice(),
            bb.as_mut_slice(),
        );
        z.append(&mut bz);
        a.append(&mut ba);
        b.append(&mut bb);
        proof {
            lemma_append_block(Plane::Z, states@, block as int);
            lemma_append_block(Plane::A, states@, block as int);
            lemma_append_block(Plane::B, states@, block as int);
        }
        block = block + 1;
    }
    (z, a, b)
}

proof fn lemma_append_block(plane: Plane, states: Seq<State>, block: int)
    requires
        0 <= block,
    ensures
        packed_plane(plane, states, block) + block_plane(plane, block_inputs(states, block))
            == packed_plane(plane, states, block + 1),
{
    let before = packed_plane(plane, states, block);
    let one = block_plane(plane, block_inputs(states, block));
    let after = packed_plane(plane, states, block + 1);
    assert forall|e: int| 0 <= e < after.len() implies (before + one)[e] == #[trigger] after[e] by {
        if e >= 1024 * block {
            assert(e / 1024 == block && e % 1024 == e - 1024 * block);
        }
    }
    assert(before + one =~= after);
}

} // verus!
