//! What can be read back from witness planes: the input states, and from the inputs and the
//! chi factors of every round the whole computation.
use crate::field::F128;
use crate::keccak::{
    chi_iota, chi_left, chi_right, linear_layer, permuted, round_constants, state_lanes, State,
};
use crate::keccak3::{
    block_inputs, block_plane, block_word, input_lanes, pack_words, packed_plane, sub_word, Plane,
};
use vstd::prelude::*;

verus! {

/// Word `w` of a plane: the low half of element `w / 2` for even `w`, its high half for odd
/// `w`.
pub open spec fn read_word(plane: Seq<F128>, w: int) -> u64 {
    if w % 2 == 0 {
        (plane[w / 2].bits & 0xffff_ffff_ffff_ffff) as u64
    } else {
        (plane[w / 2].bits >> 64u128) as u64
    }
}

/// The word of permutation `s` of a block for place `t` of round `round`.
pub open spec fn read_round(plane: Seq<F128>, s: int, round: int, t: int) -> u64 {
    read_word(plane, 625 * s + 25 + 25 * round + t)
}

/// The lane at place `t` after the linear layer of round `round`, which is the second factor
/// of the product two places before it in the row.
pub open spec fn read_mixed(b: Seq<F128>, s: int, round: int, t: int) -> u64 {
    read_round(b, s, round, (t % 5 + 3) % 5 + 5 * (t / 5))
}

/// The lane at place `t` after round `round`, from the factors and the products alone.
pub open spec fn read_state(z: Seq<F128>, b: Seq<F128>, s: int, round: int, t: int) -> u64 {
    read_mixed(b, s, round, t) ^ read_round(z, s, round, t) ^ (if t == 0 {
        round_constants()[round]
    } else {
        0
    })
}

proof fn lemma_unpack(lo: u64, hi: u64)
    ensures
        (pack_words(lo, hi).bits & 0xffff_ffff_ffff_ffff) as u64 == lo,
        (pack_words(lo, hi).bits >> 64u128) as u64 == hi,
{
    assert(((((hi as u128) << 64u128) | (lo as u128)) & 0xffff_ffff_ffff_ffffu128) as u64 == lo
        && ((((hi as u128) << 64u128) | (lo as u128)) >> 64u128) as u64 == hi) by (bit_vector);
}

proof fn lemma_read_block(plane: Plane, lanes: Seq<Seq<u64>>, w: int)
    requires
        0 <= w < 2048,
    ensures
        read_word(block_plane(plane, lanes), w) == block_word(plane, lanes, w),
{
    let e = w / 2;
    lemma_unpack(block_word(plane, lanes, 2 * e), block_word(plane, lanes, 2 * e + 1));
    assert(w == 2 * e || w == 2 * e + 1);
}

proof fn lemma_read_sub(plane: Plane, lanes: Seq<Seq<u64>>, s: int, o: int)
    requires
        0 <= s < 3,
        0 <= o < 625,
    ensures
        read_word(block_plane(plane, lanes), 625 * s + o) == sub_word(plane, lanes[s], o),
{
    lemma_read_block(plane, lanes, 625 * s + o);
    assert((625 * s + o) / 625 == s && (625 * s + o) % 625 == o);
}

/// A block holds the inputs of all three permutations, with the constant one as their second
/// factor.
pub proof fn law_block_holds_its_inputs(lanes: Seq<Seq<u64>>, s: int, o: int)
    requires
        0 <= s < 3,
        0 <= o < 25,
    ensures
        read_word(block_plane(Plane::Z, lanes), 625 * s + o) == lanes[s][o],
        read_word(block_plane(Plane::A, lanes), 625 * s + o) == lanes[s][o],
        read_word(block_plane(Plane::B, lanes), 625 * s + o) == 0xffff_ffff_ffff_ffffu64,
{
    lemma_read_sub(Plane::Z, lanes, s, o);
    lemma_read_sub(Plane::A, lanes, s, o);
    lemma_read_sub(Plane::B, lanes, s, o);
    reveal(sub_word);
}

/// A block holds the chi products of all rounds of all three permutations with their factors:
/// the factors of a product are the complement of the next lane in the row and the lane after
/// it, as the linear layer left them.
pub proof fn law_block_holds_its_rounds(lanes: Seq<Seq<u64>>, s: int, round: int, x: int, y: int)
    requires
        0 <= s < 3,
        0 <= round < 24,
        0 <= x < 5,
        0 <= y < 5,
    ensures
        ({
            let mixed = linear_layer(permuted(lanes[s], round));
            let next = mixed[(x + 1) % 5 + 5 * y];
            let second = mixed[(x + 2) % 5 + 5 * y];
            let t = x + 5 * y;
            &&& read_round(block_plane(Plane::A, lanes), s, round, t) == !next
            &&& read_round(block_plane(Plane::B, lanes), s, round, t) == second
            &&& read_round(block_plane(Plane::Z, lanes), s, round, t) == !next & second
        }),
{
    let t = x + 5 * y;
    let o = 25 + 25 * round + t;
    lemma_read_sub(Plane::Z, lanes, s, o);
    lemma_read_sub(Plane::A, lanes, s, o);
    lemma_read_sub(Plane::B, lanes, s, o);
    reveal(sub_word);
    assert(o / 25 - 1 == round && o % 25 == t);
    assert(t % 5 == x && t / 5 == y);
}

/// From the planes of a block alone every state of every permutation can be recomputed: the
/// lanes after the linear layer of each round, and the state after the round. The last state
/// is the output of the permutation.
pub proof fn law_block_holds_the_computation(lanes: Seq<Seq<u64>>, s: int, round: int, t: int)
    requires
        0 <= s < 3,
        0 <= round < 24,
        0 <= t < 25,
    ensures
        ({
            let z = block_plane(Plane::Z, lanes);
            let b = block_plane(Plane::B, lanes);
            &&& read_mixed(b, s, round, t) == linear_layer(permuted(lanes[s], round))[t]
            &&& read_state(z, b, s, round, t) == permuted(lanes[s], round + 1)[t]
        }),
{
    let (x, y) = (t % 5, t / 5);
    let before = (x + 3) % 5;
    law_block_holds_its_rounds(lanes, s, round, before, y);
    law_block_holds_its_rounds(lanes, s, round, x, y);
    assert((before + 2) % 5 == x);
    assert(x + 5 * y == t);
    let mixed = linear_layer(permuted(lanes[s], round));
    assert(chi_left(mixed, t) == !mixed[(x + 1) % 5 + 5 * y]);
    assert(chi_right(mixed, t) == mixed[(x + 2) % 5 + 5 * y]);
    assert(permuted(lanes[s], round + 1) == chi_iota(mixed, round));
}

/// After the three permutations a block holds one word that is one, and nothing else.
pub proof fn law_block_ends_with_its_pin(plane: Plane, lanes: Seq<Seq<u64>>, w: int)
    requires
        1875 <= w < 2048,
    ensures
        read_word(block_plane(plane, lanes), w) == (if w == 1875 {
            1u64
        } else {
            0
        }),
        block_plane(plane, lanes).len() == 1024,
{
    lemma_read_block(plane, lanes, w);
}

/// The elements of a block satisfy the constraint: the bits of `z` are those set in `a` and
/// in `b`.
pub proof fn law_block_elements_satisfy_constraints(lanes: Seq<Seq<u64>>, e: int)
    requires
        0 <= e < 1024,
    ensures
        block_plane(Plane::Z, lanes)[e].bits == block_plane(Plane::A, lanes)[e].bits & block_plane(
            Plane::B,
            lanes,
        )[e].bits,
{
    crate::keccak3::law_block_satisfies_constraints(lanes, 2 * e);
    crate::keccak3::law_block_satisfies_constraints(lanes, 2 * e + 1);
    let (la, lb) = (block_word(Plane::A, lanes, 2 * e), block_word(Plane::B, lanes, 2 * e));
    let (ha, hb) = (block_word(Plane::A, lanes, 2 * e + 1), block_word(Plane::B, lanes, 2 * e + 1));
    assert((((ha & hb) as u128) << 64u128) | ((la & lb) as u128) == ((((ha as u128) << 64u128) | (
    la as u128)) & (((hb as u128) << 64u128) | (lb as u128)))) by (bit_vector);
}

/// Every state is in a packed witness, in order: the input words of permutation `i % 3` in
/// block `i / 3` hold the bytes of state `i`, eight to a word in little-endian order. Past
/// the last state they are zero.
pub proof fn law_packed_witness_holds_the_states(
    plane: Plane,
    states: Seq<State>,
    blocks: int,
    i: int,
    o: int,
    k: int,
)
    requires
        !(plane is B),
        0 <= i < 3 * blocks,
        0 <= o < 25,
        0 <= k < 8,
    ensures
        packed_plane(plane, states, blocks).len() == 1024 * blocks,
        ({
            let word = read_word(
                packed_plane(plane, states, blocks),
                2048 * (i / 3) + 625 * (i % 3) + o,
            );
            ((word >> ((8 * k) as u64)) & 0xff) as u8 == (if i < states.len() {
                states[i]@[8 * o + k]
            } else {
                0
            })
        }),
{
    let block = i / 3;
    let w = 625 * (i % 3) + o;
    lemma_read_packed(plane, states, blocks, block, w);
    let lanes = block_inputs(states, block);
    law_block_holds_its_inputs(lanes, i % 3, o);
    assert(lanes[i % 3] == input_lanes(states, i));
    let shift = (8 * k) as u64;
    if i < states.len() {
        law_lanes_hold_the_bytes(states[i]@, o, k);
    } else {
        assert(((0u64 >> shift) & 0xff) as u8 == 0) by (bit_vector);
    }
}

/// A packed witness, word by word, is its blocks one after the other.
proof fn lemma_read_packed(plane: Plane, states: Seq<State>, blocks: int, block: int, w: int)
    requires
        0 <= block < blocks,
        0 <= w < 2048,
    ensures
        read_word(packed_plane(plane, states, blocks), 2048 * block + w) == read_word(
            block_plane(plane, block_inputs(states, block)),
            w,
        ),
{
    let e = 1024 * block + w / 2;
    assert((2048 * block + w) / 2 == e && (2048 * block + w) % 2 == w % 2);
    assert(e / 1024 == block && e % 1024 == w / 2);
    assert(0 <= e < 1024 * blocks);
}

/// Every block of a packed witness is a real computation on three inputs, padding blocks
/// too: what can be read from a block of its own can be read from its part of the witness.
pub proof fn law_packed_witness_holds_the_computations(
    states: Seq<State>,
    blocks: int,
    i: int,
    round: int,
    t: int,
)
    requires
        0 <= i < 3 * blocks,
        0 <= round < 24,
        0 <= t < 25,
    ensures
        ({
            let z = packed_plane(Plane::Z, states, blocks);
            let b = packed_plane(Plane::B, states, blocks);
            let at = 2048 * (i / 3) + 625 * (i % 3) + 25 + 25 * round;
            let input = if i < states.len() {
                state_lanes(states[i]@)
            } else {
                Seq::new(25, |j: int| 0u64)
            };
            let mixed = read_word(b, at + (t % 5 + 3) % 5 + 5 * (t / 5));
            &&& mixed == linear_layer(permuted(input, round))[t]
            &&& mixed ^ read_word(z, at + t) ^ (if t == 0 {
                round_constants()[round]
            } else {
                0
            }) == permuted(input, round + 1)[t]
        }),
{
    let block = i / 3;
    let s = i % 3;
    let lanes = block_inputs(states, block);
    let turned = (t % 5 + 3) % 5 + 5 * (t / 5);
    law_block_holds_the_computation(lanes, s, round, t);
    lemma_read_packed(Plane::Z, states, blocks, block, 625 * s + 25 + 25 * round + t);
    lemma_read_packed(Plane::B, states, blocks, block, 625 * s + 25 + 25 * round + turned);
    assert(lanes[s] == input_lanes(states, i));
}

/// Reading lanes is little-endian: byte `k` of lane `o` of a state is its byte `8 * o + k`.
pub proof fn law_lanes_hold_the_bytes(state: Seq<u8>, o: int, k: int)
    requires
        state.len() == 200,
        0 <= o < 25,
        0 <= k < 8,
    ensures
        ((state_lanes(state)[o] >> ((8 * k) as u64)) & 0xff) as u8 == state[8 * o + k],
{
    let s = state.subrange(8 * o, 8 * o + 8);
    assert(s[k] == state[8 * o + k]);
    let (b0, b1, b2, b3) = (s[0], s[1], s[2], s[3]);
    let (b4, b5, b6, b7) = (s[4], s[5], s[6], s[7]);
    let v = (b0 as u64) | ((b1 as u64) << 8) | ((b2 as u64) << 16) | ((b3 as u64) << 24) | ((
    b4 as u64) << 32) | ((b5 as u64) << 40) | ((b6 as u64) << 48) | ((b7 as u64) << 56);
    assert(state_lanes(state)[o] == v);
    assert(((v >> 0u64) & 0xff) as u8 == b0 && ((v >> 8u64) & 0xff) as u8 == b1 && ((v >> 16u64)
        & 0xff) as u8 == b2 && ((v >> 24u64) & 0xff) as u8 == b3 && ((v >> 32u64) & 0xff) as u8
        == b4 && ((v >> 40u64) & 0xff) as u8 == b5 && ((v >> 48u64) & 0xff) as u8 == b6 && ((v
        >> 56u64) & 0xff) as u8 == b7) by (bit_vector)
        requires
            v == (b0 as u64) | ((b1 as u64) << 8) | ((b2 as u64) << 16) | ((b3 as u64) << 24) | ((
            b4 as u64) << 32) | ((b5 as u64) << 40) | ((b6 as u64) << 48) | ((b7 as u64) << 56),
    ;
}

} // verus!
