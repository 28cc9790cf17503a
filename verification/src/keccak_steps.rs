//! The steps of the permutation in the coordinates of a state: the lane in column `x` and row
//! `y` is lane `x + 5 * y`.
use crate::keccak::{
    chi_iota, lane_byte, linear_layer, offsets, permuted, pi_source, rotl, round_constants,
    state_bytes, state_lanes,
};
use vstd::prelude::*;

verus! {

/// Bit `i` of a lane.
pub open spec fn lane_bit(v: u64, i: int) -> bool {
    (v >> (i as u64)) & 1 == 1
}

/// A rotation moves bit `i` up by `n` places, and around the end.
pub proof fn law_rotation_moves_bits(v: u64, n: u64, i: int)
    requires
        n < 64,
        0 <= i < 64,
    ensures
        lane_bit(rotl(v, n), (i + n) % 64) == lane_bit(v, i),
{
    let from = i as u64;
    let to = ((i + n) % 64) as u64;
    assert(to == (if from + n < 64 {
        (from + n) as int
    } else {
        from + n - 64
    }));
    if n == 0 {
    } else if from + n < 64 {
        let back = (64 - n) as u64;
        assert((((v << n) | (v >> back)) >> to) & 1 == (v >> from) & 1) by (bit_vector)
            requires
                0 < n < 64,
                back == 64 - n,
                from < 64,
                to == from + n,
                to < 64,
        ;
    } else {
        let back = (64 - n) as u64;
        assert((((v << n) | (v >> back)) >> to) & 1 == (v >> from) & 1) by (bit_vector)
            requires
                0 < n < 64,
                back == 64 - n,
                from < 64,
                from + n == to + 64,
                to < 64,
        ;
    }
}

/// The column and the row after `t` steps of the walk that starts in column one of row zero
/// and goes from column `x` and row `y` to column `y` and row `2 * x + 3 * y`.
pub open spec fn walk(t: int) -> (int, int)
    decreases t,
{
    if t <= 0 {
        (1, 0)
    } else {
        let (x, y) = walk(t - 1);
        (y, (2 * x + 3 * y) % 5)
    }
}

/// The sum of the numbers from one to `t + 1`.
pub open spec fn triangle(t: int) -> int
    decreases t,
{
    if t <= 0 {
        1
    } else {
        triangle(t - 1) + t + 1
    }
}

/// The rotations are the triangular numbers along the walk, and none for the lane that the
/// walk does not meet.
pub proof fn law_offsets_are_triangular(t: int)
    requires
        0 <= t < 24,
    ensures
        ({
            let (x, y) = walk(t);
            &&& 0 <= x < 5
            &&& 0 <= y < 5
            &&& (x, y) != (0int, 0int)
            &&& offsets()[x + 5 * y] == triangle(t) % 64
        }),
        offsets()[0] == 0,
{
    assert(walk(0) == (1int, 0int) && triangle(0) == 1);
    assert(walk(1) == (0int, 2int) && triangle(1) == 3);
    assert(walk(2) == (2int, 1int) && triangle(2) == 6);
    assert(walk(3) == (1int, 2int) && triangle(3) == 10);
    assert(walk(4) == (2int, 3int) && triangle(4) == 15);
    assert(walk(5) == (3int, 3int) && triangle(5) == 21);
    assert(walk(6) == (3int, 0int) && triangle(6) == 28);
    assert(walk(7) == (0int, 1int) && triangle(7) == 36);
    assert(walk(8) == (1int, 3int) && triangle(8) == 45);
    assert(walk(9) == (3int, 1int) && triangle(9) == 55);
    assert(walk(10) == (1int, 4int) && triangle(10) == 66);
    assert(walk(11) == (4int, 4int) && triangle(11) == 78);
    assert(walk(12) == (4int, 0int) && triangle(12) == 91);
    assert(walk(13) == (0int, 3int) && triangle(13) == 105);
    assert(walk(14) == (3int, 4int) && triangle(14) == 120);
    assert(walk(15) == (4int, 3int) && triangle(15) == 136);
    assert(walk(16) == (3int, 2int) && triangle(16) == 153);
    assert(walk(17) == (2int, 2int) && triangle(17) == 171);
    assert(walk(18) == (2int, 0int) && triangle(18) == 190);
    assert(walk(19) == (0int, 4int) && triangle(19) == 210);
    assert(walk(20) == (4int, 2int) && triangle(20) == 231);
    assert(walk(21) == (2int, 4int) && triangle(21) == 253);
    assert(walk(22) == (4int, 1int) && triangle(22) == 276);
    assert(walk(23) == (1int, 1int) && triangle(23) == 300);
}

/// Theta, rho and pi in coordinates: the lane of column `x` and row `y`, with the parities of
/// its two neighbour columns added, is rotated and moved to column `y` and row
/// `2 * x + 3 * y`.
pub proof fn law_linear_layer(s: Seq<u64>, x: int, y: int)
    requires
        s.len() == 25,
        0 <= x < 5,
        0 <= y < 5,
    ensures
        ({
            let l = (x + 4) % 5;
            let r = (x + 1) % 5;
            let left = s[l] ^ s[l + 5] ^ s[l + 10] ^ s[l + 15] ^ s[l + 20];
            let right = s[r] ^ s[r + 5] ^ s[r + 10] ^ s[r + 15] ^ s[r + 20];
            linear_layer(s)[y + 5 * ((2 * x + 3 * y) % 5)] == rotl(
                s[x + 5 * y] ^ (left ^ rotl(right, 1)),
                offsets()[x + 5 * y],
            )
        }),
        linear_layer(s).len() == 25,
{
    reveal(linear_layer);
    let t = y + 5 * ((2 * x + 3 * y) % 5);
    assert(t % 5 == y && t / 5 == (2 * x + 3 * y) % 5);
    assert(pi_source(t) == x + 5 * y);
    assert((x + 5 * y) % 5 == x);
}

/// Chi and iota in coordinates: a lane gets the product of the complement of the next lane in
/// its row and the lane after that, and the first lane gets the constant of the round. The
/// permutation is these rounds one after the other.
pub proof fn law_round(s: Seq<u64>, round: int, x: int, y: int)
    requires
        0 <= round < 24,
        0 <= x < 5,
        0 <= y < 5,
    ensures
        permuted(s, 0) == s,
        permuted(s, round + 1).len() == 25,
        ({
            let b = linear_layer(permuted(s, round));
            permuted(s, round + 1)[x + 5 * y] == b[x + 5 * y] ^ (!b[(x + 1) % 5 + 5 * y] & b[(x + 2)
                % 5 + 5 * y]) ^ (if x == 0 && y == 0 {
                round_constants()[round]
            } else {
                0
            })
        }),
{
    let t = x + 5 * y;
    assert(t % 5 == x && t / 5 == y);
    assert(permuted(s, round + 1) == chi_iota(linear_layer(permuted(s, round)), round));
}

/// Output `t` of the shift register of degree eight that makes the round constants: it starts
/// with one and seven zeros, and every later bit is the sum of those two, three, four and eight
/// places before it.
pub open spec fn tap(t: int) -> bool
    decreases t,
{
    if t < 8 {
        t == 0
    } else {
        ((tap(t - 2) != tap(t - 3)) != tap(t - 4)) != tap(t - 8)
    }
}

/// The constant of a round has seven bits of the register, at the places `2^j - 1`, and no
/// others.
pub proof fn law_round_constants(round: int)
    requires
        0 <= round < 24,
    ensures
        round_constants().len() == 24,
        round_constants()[round] == (if tap(7 * round) {
            0x1int
        } else {
            0
        }) + (if tap(7 * round + 1) {
            0x2int
        } else {
            0
        }) + (if tap(7 * round + 2) {
            0x8int
        } else {
            0
        }) + (if tap(7 * round + 3) {
            0x80int
        } else {
            0
        }) + (if tap(7 * round + 4) {
            0x8000int
        } else {
            0
        }) + (if tap(7 * round + 5) {
            0x8000_0000int
        } else {
            0
        }) + (if tap(7 * round + 6) {
            0x8000_0000_0000_0000int
        } else {
            0
        }),
{
    reveal_with_fuel(tap, 5);
    assert(tap(0) && !tap(1) && !tap(2) && !tap(3) && !tap(4) && !tap(5) && !tap(6));
    assert(!tap(7) && tap(8) && !tap(9) && tap(10) && tap(11) && !tap(12) && !tap(13));
    assert(!tap(14) && tap(15) && tap(16) && tap(17) && tap(18) && !tap(19) && tap(20));
    assert(!tap(21) && !tap(22) && !tap(23) && !tap(24) && tap(25) && tap(26) && tap(27));
    assert(tap(28) && tap(29) && tap(30) && tap(31) && tap(32) && !tap(33) && !tap(34));
    assert(tap(35) && !tap(36) && !tap(37) && !tap(38) && !tap(39) && tap(40) && !tap(41));
    assert(tap(42) && !tap(43) && !tap(44) && tap(45) && tap(46) && tap(47) && tap(48));
    assert(tap(49) && !tap(50) && tap(51) && !tap(52) && tap(53) && !tap(54) && tap(55));
    assert(!tap(56) && tap(57) && tap(58) && tap(59) && !tap(60) && !tap(61) && !tap(62));
    assert(!tap(63) && !tap(64) && tap(65) && tap(66) && !tap(67) && !tap(68) && !tap(69));
    assert(tap(70) && !tap(71) && tap(72) && !tap(73) && tap(74) && tap(75) && !tap(76));
    assert(!tap(77) && tap(78) && tap(79) && !tap(80) && !tap(81) && tap(82) && !tap(83));
    assert(tap(84) && tap(85) && tap(86) && tap(87) && tap(88) && tap(89) && !tap(90));
    assert(tap(91) && tap(92) && tap(93) && tap(94) && !tap(95) && !tap(96) && tap(97));
    assert(tap(98) && !tap(99) && tap(100) && tap(101) && tap(102) && !tap(103) && tap(104));
    assert(tap(105) && tap(106) && !tap(107) && !tap(108) && tap(109) && !tap(110) && tap(111));
    assert(!tap(112) && tap(113) && !tap(114) && !tap(115) && tap(116) && !tap(117) && tap(118));
    assert(!tap(119) && !tap(120) && !tap(121) && tap(122) && !tap(123) && !tap(124) && tap(125));
    assert(!tap(126) && tap(127) && tap(128) && !tap(129) && tap(130) && !tap(131) && !tap(132));
    assert(!tap(133) && tap(134) && tap(135) && !tap(136) && !tap(137) && tap(138) && tap(139));
    assert(tap(140) && !tap(141) && !tap(142) && tap(143) && tap(144) && tap(145) && tap(146));
    assert(!tap(147) && !tap(148) && !tap(149) && tap(150) && tap(151) && !tap(152) && tap(153));
    assert(tap(154) && !tap(155) && !tap(156) && !tap(157) && !tap(158) && tap(159) && !tap(160));
    assert(!tap(161) && !tap(162) && tap(163) && !tap(164) && tap(165) && tap(166) && tap(167));
    assert(round == 0 || round == 1 || round == 2 || round == 3 || round == 4 || round == 5
        || round == 6 || round == 7 || round == 8 || round == 9 || round == 10 || round == 11
        || round == 12 || round == 13 || round == 14 || round == 15 || round == 16 || round == 17
        || round == 18 || round == 19 || round == 20 || round == 21 || round == 22 || round == 23);
}

/// Reading bytes as lanes and writing the lanes again gives the bytes back.
pub proof fn law_lanes_round_trip(state: Seq<u8>)
    requires
        state.len() == 200,
    ensures
        state_bytes(state_lanes(state)) == state,
{
    let lanes = state_lanes(state);
    assert forall|j: int| 0 <= j < 200 implies state_bytes(lanes)[j] == state[j] by {
        crate::block_reading::law_lanes_hold_the_bytes(state, j / 8, j % 8);
        assert(state_bytes(lanes)[j] == lane_byte(lanes[j / 8], j % 8));
    }
    assert(state_bytes(lanes) =~= state);
}

} // verus!
