use flock_core::field::F128;
use flock_core::keccak::{keccak_f, lanes_to_state, state_to_lanes, Lanes, State};
use flock_core::keccak3::{
    generate_block_witness_from_lanes_into, generate_witness_with_ab_packed, K, N_SUB,
};
use flock_core::samples::inputs;

#[test]
fn direct_block_matches_packed_witness_with_poisoned_outputs() {
    let cases: [[Lanes; N_SUB]; 4] = [
        [[0; 25]; N_SUB],
        [[u64::MAX; 25]; N_SUB],
        inputs(1),
        inputs(0x123456789abcdef0),
    ];
    for lanes in cases {
        let states: Vec<State> = lanes.iter().map(lanes_to_state).collect();
        let (z, a, b) = generate_witness_with_ab_packed(&states, 3);
        for poison in [
            F128::new(0xaaaaaaaaaaaaaaaa, 0x5555555555555555),
            F128::new(u64::MAX, u64::MAX),
        ] {
            let mut actual = [
                vec![poison; K / 128],
                vec![poison; K / 128],
                vec![poison; K / 128],
            ];
            let [az, aa, ab] = &mut actual;
            generate_block_witness_from_lanes_into(&lanes, az, aa, ab);
            assert_eq!(
                (az.as_slice(), aa.as_slice(), ab.as_slice()),
                (&z[..K / 128], &a[..K / 128], &b[..K / 128])
            );
        }
    }
    // Every padding block is a real all-zero-input computation, including its constant pins.
    let states: Vec<State> = inputs(7).iter().map(lanes_to_state).collect();
    let (z, a, b) = generate_witness_with_ab_packed(&states[..1], 3);
    for block in 0..8 {
        let lanes = if block == 0 {
            [inputs(7)[0], [0; 25], [0; 25]]
        } else {
            [[0; 25]; N_SUB]
        };
        let mut az = vec![F128::one(); K / 128];
        let mut aa = az.clone();
        let mut ab = az.clone();
        generate_block_witness_from_lanes_into(&lanes, &mut az, &mut aa, &mut ab);
        let range = block * (K / 128)..(block + 1) * (K / 128);
        assert_eq!(
            (az.as_slice(), aa.as_slice(), ab.as_slice()),
            (&z[range.clone()], &a[range.clone()], &b[range])
        );
    }
}

#[test]
fn permutation_of_zero_has_the_known_lanes() {
    let out = keccak_f(&[0; 25]);
    assert_eq!(
        out[..5],
        [
            0xf1258f7940e1dde7,
            0x84d5ccf933c0478a,
            0xd598261ea65aa9ee,
            0xbd1547306f80494d,
            0x8b284e056253d057
        ]
    );
    let again = keccak_f(&out);
    assert_eq!(again[0], 0x2d5c954df96ecb3c);
    assert_eq!(again[1], 0x6a332cd07057b56d);
}

#[test]
fn states_and_lanes_convert_both_ways() {
    let lanes = inputs(3)[1];
    let state = lanes_to_state(&lanes);
    assert_eq!(state[..8], lanes[0].to_le_bytes());
    assert_eq!(state[192..], lanes[24].to_le_bytes());
    assert_eq!(state_to_lanes(&state), lanes);
}

#[test]
fn block_words_satisfy_their_constraints() {
    let lanes = inputs(11);
    let mut z = vec![F128::zero(); K / 128];
    let mut a = vec![F128::zero(); K / 128];
    let mut b = vec![F128::zero(); K / 128];
    generate_block_witness_from_lanes_into(&lanes, &mut z, &mut a, &mut b);
    for e in 0..K / 128 {
        assert_eq!(z[e].bits, a[e].bits & b[e].bits);
    }
    // The first lanes of the first permutation, with the constant one beside them.
    assert_eq!(z[0], F128::new(lanes[0][0], lanes[0][1]));
    assert_eq!(b[0], F128::new(u64::MAX, u64::MAX));
    // The pin is the last word in use.
    assert_eq!(z[937].bits >> 64, 1);
    assert_eq!(z[938], F128::zero());
    // The last products of the second permutation give its last state.
    let out = keccak_f(&lanes[1]);
    let word = |plane: &Vec<F128>, w: usize| (plane[w / 2].bits >> (64 * (w % 2))) as u64;
    let base = 625 + 25 + 25 * 23;
    let mixed: Vec<u64> = (0..25)
        .map(|t| word(&b, base + (t % 5 + 3) % 5 + 5 * (t / 5)))
        .collect();
    for t in 1..25 {
        assert_eq!(mixed[t] ^ word(&z, base + t), out[t]);
    }
    assert_eq!(mixed[0] ^ word(&z, base) ^ 0x8000000080008008, out[0]);
}

#[test]
fn sample_lanes_follow_the_counter() {
    // The first value of the generator started at zero.
    assert_eq!(inputs(0)[0][0], 0xe220a8397b1dcdaf);
    assert_eq!(inputs(0)[0][1], 0x6e789e6aa1b965f4);
    assert_eq!(inputs(0)[0][24], inputs(0x9e3779b97f4a7c15)[0][23]);
    let later = 5u64.wrapping_add(0x9e3779b97f4a7c15u64.wrapping_mul(25));
    assert_eq!(inputs(5)[1][0], inputs(later)[0][0]);
}

#[test]
fn input_words_are_distinct_and_depend_on_the_seed_alone() {
    for seed in [0u64, 1, 0x123456789abcdef0, u64::MAX] {
        let mut words: Vec<u64> = inputs(seed).iter().flatten().copied().collect();
        assert_eq!(words, inputs(seed).concat());
        words.sort_unstable();
        words.dedup();
        assert_eq!(words.len(), 75);
    }
    assert_ne!(inputs(0), inputs(1));
}
