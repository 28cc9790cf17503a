//! The Keccak-f[1600] permutation on lanes.
//!
//! Lane `x + 5 * y` stands in column `x` and row `y`. A round is linear up to the
//! products of chi, so the products of all rounds and the input determine
//! everything else.
use vstd::prelude::*;

verus! {

/// The 25 lanes of a state.
pub type Lanes = [u64; 25];

/// A state as its 200 bytes, every lane in little-endian order.
pub type State = [u8; 200];

/// The number of rounds.
pub const ROUNDS: usize = 24;

/// Rotation to the left.
pub open spec fn rotl(v: u64, n: u64) -> u64 {
    if n == 0 {
        v
    } else {
        (v << n) | (v >> ((64 - n) as u64))
    }
}

/// The parity of column `x`.
pub open spec fn column(s: Seq<u64>, x: int) -> u64 {
    s[x] ^ s[x + 5] ^ s[x + 10] ^ s[x + 15] ^ s[x + 20]
}

/// What theta adds to every lane of column `x`.
pub open spec fn theta_effect(s: Seq<u64>, x: int) -> u64 {
    column(s, (x + 4) % 5) ^ rotl(column(s, (x + 1) % 5), 1)
}

/// The rotation of lane `i` in rho.
pub open spec fn offsets() -> Seq<u64> {
    seq![
        0, 1, 62, 28, 27, 36, 44, 6, 55, 20, 3, 10, 43, 25, 39, 41, 45, 15, 21, 8, 18, 2, 61, 56,
        14,
    ]
}

/// The constants of iota.
pub open spec fn round_constants() -> Seq<u64> {
    seq![
        0x0000000000000001,
        0x0000000000008082,
        0x800000000000808a,
        0x8000000080008000,
        0x000000000000808b,
        0x0000000080000001,
        0x8000000080008081,
        0x8000000000008009,
        0x000000000000008a,
        0x0000000000000088,
        0x0000000080008009,
        0x000000008000000a,
        0x000000008000808b,
        0x800000000000008b,
        0x8000000000008089,
        0x8000000000008003,
        0x8000000000008002,
        0x8000000000000080,
        0x000000000000800a,
        0x800000008000000a,
        0x8000000080008081,
        0x8000000000008080,
        0x0000000080000001,
        0x8000000080008008,
    ]
}

/// The lane that pi moves to place `t`.
pub open spec fn pi_source(t: int) -> int {
    (t % 5 + 3 * (t / 5)) % 5 + 5 * (t % 5)
}

/// The state after theta, rho and pi.
#[verifier::opaque]
pub open spec fn linear_layer(s: Seq<u64>) -> Seq<u64> {
    Seq::new(
        25,
        |t: int|
            rotl(
                s[pi_source(t)] ^ theta_effect(s, pi_source(t) % 5),
                offsets()[pi_source(t)],
            ),
    )
}

/// The first factor of the chi product at place `t`: the complement of the next
/// lane in the row.
pub open spec fn chi_left(b: Seq<u64>, t: int) -> u64 {
    !b[(t % 5 + 1) % 5 + 5 * (t / 5)]
}

/// The second factor of the chi product at place `t`: the lane after that.
pub open spec fn chi_right(b: Seq<u64>, t: int) -> u64 {
    b[(t % 5 + 2) % 5 + 5 * (t / 5)]
}

/// Chi and iota of round `round`.
pub open spec fn chi_iota(b: Seq<u64>, round: int) -> Seq<u64> {
    Seq::new(
        25,
        |t: int|
            b[t] ^ (chi_left(b, t) & chi_right(b, t)) ^ (if t == 0 {
                round_constants()[round]
            } else {
                0
            }),
    )
}

/// The state after round `round`.
pub open spec fn round_output(s: Seq<u64>, round: int) -> Seq<u64> {
    chi_iota(linear_layer(s), round)
}

/// The state after the first `rounds` rounds.
pub open spec fn permuted(s: Seq<u64>, rounds: int) -> Seq<u64>
    decreases rounds,
{
    if rounds <= 0 {
        s
    } else {
        round_output(permuted(s, rounds - 1), rounds - 1)
    }
}

fn rotate(v: u64, n: u64) -> (r: u64)
    requires
        n < 64,
    ensures
        r == rotl(v, n),
{
    if n == 0 {
        v
    } else {
        (v << n) | (v >> (64 - n))
    }
}

fn offset_table() -> (t: [u64; 25])
    ensures
        t@ == offsets(),
{
    let t: [u64; 25] = [
        0, 1, 62, 28, 27, 36, 44, 6, 55, 20, 3, 10, 43, 25, 39, 41, 45, 15, 21, 8, 18, 2, 61, 56,
        14,
    ];
    assert(t@ =~= offsets());
    t
}

fn constant_table() -> (t: [u64; 24])
    ensures
        t@ == round_constants(),
{
    let t: [u64; 24] = [
        0x0000000000000001,
        0x0000000000008082,
        0x800000000000808a,
        0x8000000080008000,
        0x000000000000808b,
        0x0000000080000001,
        0x8000000080008081,
        0x8000000000008009,
        0x000000000000008a,
        0x0000000000000088,
        0x0000000080008009,
        0x000000008000000a,
        0x000000008000808b,
        0x800000000000008b,
        0x8000000000008089,
        0x8000000000008003,
        0x8000000000008002,
        0x8000000000000080,
        0x000000000000800a,
        0x800000008000000a,
        0x8000000080008081,
        0x8000000000008080,
        0x0000000080000001,
        0x8000000080008008,
    ];
    assert(t@ =~= round_constants());
    t
}

/// Theta, rho and pi.
pub fn apply_linear_layer(s: &Lanes) -> (b: Lanes)
    ensures
        b@ == linear_layer(s@),
{
    let offset = offset_table();
    let mut parity: [u64; 5] = [0; 5];
    let mut x: usize = 0;
    while x < 5
        invariant
            x <= 5,
            forall|i: int| 0 <= i < x ==> parity@[i] == column(s@, i),
        decreases 5 - x,
    {
        parity[x] = s[x] ^ s[x + 5] ^ s[x + 10] ^ s[x + 15] ^ s[x + 20];
        x = x + 1;
    }
    let mut b: Lanes = [0; 25];
    let mut t: usize = 0;
    while t < 25
        invariant
            t <= 25,
            offset@ == offsets(),
            forall|i: int| 0 <= i < 5 ==> parity@[i] == column(s@, i),
            forall|i: int| 0 <= i < t ==> b@[i] == linear_layer(s@)[i],
        decreases 25 - t,
    {
        let source = (t % 5 + 3 * (t / 5)) % 5 + 5 * (t % 5);
        let col = source % 5;
        proof {
            reveal(linear_layer);
        }
        assert(source == pi_source(t as int));
        assert(0 <= source < 25);
        let effect = parity[(col + 4) % 5] ^ rotate(parity[(col + 1) % 5], 1);
        assert(offset@[source as int] < 64) by {
            assert(forall|i: int| 0 <= i < 25 ==> #[trigger] offsets()[i] < 64);
        }
        b[t] = rotate(s[source] ^ effect, offset[source]);
        t = t + 1;
    }
    assert(b@ =~= linear_layer(s@)) by {
        reveal(linear_layer);
    }
    b
}

/// The state after a round, from the state after its linear layer.
pub fn apply_chi_iota(b: &Lanes, round: usize) -> (next: Lanes)
    requires
        round < ROUNDS,
    ensures
        next@ == chi_iota(b@, round as int),
{
    let constants = constant_table();
    let mut next: Lanes = [0; 25];
    let mut t: usize = 0;
    while t < 25
        invariant
            t <= 25,
            round < ROUNDS,
            constants@ == round_constants(),
            forall|i: int| 0 <= i < t ==> next@[i] == chi_iota(b@, round as int)[i],
        decreases 25 - t,
    {
        let row = 5 * (t / 5);
        let left = !b[(t % 5 + 1) % 5 + row];
        let right = b[(t % 5 + 2) % 5 + row];
        let constant = if t == 0 { constants[round] } else { 0 };
        next[t] = b[t] ^ (left & right) ^ constant;
        t = t + 1;
    }
    assert(next@ =~= chi_iota(b@, round as int));
    next
}

/// The permutation.
pub fn keccak_f(lanes: &Lanes) -> (out: Lanes)
    ensures
        out@ == permuted(lanes@, ROUNDS as int),
        out@ == permuted(lanes@, 24),
{
    let mut s: Lanes = *lanes;
    let mut round: usize = 0;
    while round < ROUNDS
        invariant
            round <= ROUNDS,
            s@ == permuted(lanes@, round as int),
        decreases ROUNDS - round,
    {
        let b = apply_linear_layer(&s);
        s = apply_chi_iota(&b, round);
        round = round + 1;
    }
    s
}

/// Byte `k` of a lane.
pub open spec fn lane_byte(lane: u64, k: int) -> u8 {
    ((lane >> ((8 * k) as u64)) & 0xff) as u8
}

/// The lane made of eight bytes.
pub open spec fn lane_of(b: Seq<u8>) -> u64 {
    (b[0] as u64) | ((b[1] as u64) << 8) | ((b[2] as u64) << 16) | ((b[3] as u64) << 24) | ((
    b[4] as u64) << 32) | ((b[5] as u64) << 40) | ((b[6] as u64) << 48) | ((b[7] as u64) << 56)
}

/// The bytes of a state.
pub open spec fn state_bytes(lanes: Seq<u64>) -> Seq<u8> {
    Seq::new(200, |j: int| lane_byte(lanes[j / 8], j % 8))
}

/// The lanes of a state given by bytes.
pub open spec fn state_lanes(state: Seq<u8>) -> Seq<u64> {
    Seq::new(25, |i: int| lane_of(state.subrange(8 * i, 8 * i + 8)))
}

/// Writing lanes as bytes loses nothing.
pub proof fn law_state_round_trip(lanes: Seq<u64>)
    requires
        lanes.len() == 25,
    ensures
        state_lanes(state_bytes(lanes)) == lanes,
{
    let state = state_bytes(lanes);
    assert forall|i: int| 0 <= i < 25 implies #[trigger] state_lanes(state)[i] == lanes[i] by {
        let v = lanes[i];
        let b = state.subrange(8 * i, 8 * i + 8);
        assert forall|k: int| 0 <= k < 8 implies #[trigger] b[k] == lane_byte(v, k) by {
            assert((8 * i + k) / 8 == i && (8 * i + k) % 8 == k);
        }
        assert((((v >> 0u64) & 0xff) as u8) as u64 | (((((v >> 8u64) & 0xff) as u8) as u64) << 8)
            | (((((v >> 16u64) & 0xff) as u8) as u64) << 16) | (((((v >> 24u64) & 0xff) as u8)
            as u64) << 24) | (((((v >> 32u64) & 0xff) as u8) as u64) << 32) | (((((v >> 40u64)
            & 0xff) as u8) as u64) << 40) | (((((v >> 48u64) & 0xff) as u8) as u64) << 48) | (((((v
            >> 56u64) & 0xff) as u8) as u64) << 56) == v) by (bit_vector);
    }
    assert(state_lanes(state) =~= lanes);
}

/// The bytes of a state.
pub fn lanes_to_state(lanes: &Lanes) -> (state: State)
    ensures
        state@ == state_bytes(lanes@),
{
    let mut state: State = [0; 200];
    let mut j: usize = 0;
    while j < 200
        invariant
            j <= 200,
            forall|i: int| 0 <= i < j ==> state@[i] == state_bytes(lanes@)[i],
        decreases 200 - j,
    {
        let shift: u64 = 8 * (j % 8) as u64;
        state[j] = ((lanes[j / 8] >> shift) & 0xff) as u8;
        j = j + 1;
    }
    assert(state@ =~= state_bytes(lanes@));
    state
}

/// The lanes of a state.
pub fn state_to_lanes(state: &State) -> (lanes: Lanes)
    ensures
        lanes@ == state_lanes(state@),
{
    let mut lanes: Lanes = [0; 25];
    let mut i: usize = 0;
    while i < 25
        invariant
            i <= 25,
            forall|j: int| 0 <= j < i ==> lanes@[j] == state_lanes(state@)[j],
        decreases 25 - i,
    {
        let k = 8 * i;
        lanes[i] = (state[k] as u64) | ((state[k + 1] as u64) << 8) | ((state[k + 2] as u64) << 16)
            | ((state[k + 3] as u64) << 24) | ((state[k + 4] as u64) << 32) | ((state[k + 5] as u64)
            << 40) | ((state[k + 6] as u64) << 48) | ((state[k + 7] as u64) << 56);
        i = i + 1;
    }
    assert(lanes@ =~= state_lanes(state@));
    lanes
}

} // verus!
