use flock_core::field::F128;
use flock_core::multilinear::SplitEq;
use flock_core::padding::PaddingSpec;
use flock_core::rounds::round_pair_naive;
use flock_core::univariate::{
    fold_chunk, fold_shape_admitted, join_chunks, univariate_fold_oracle,
    uni_skip_fold_and_round_pair_optimized_packed_padded,
    uni_skip_fold_and_round_pair_optimized_packed_padded_into, FoldedChunk, UniSkipFoldTable,
};

fn powers(z: F128) -> Vec<F128> {
    let mut weights = vec![F128::one()];
    while weights.len() < 64 {
        let last = weights[weights.len() - 1];
        weights.push(last * z);
    }
    weights
}

fn pack_bits(bits: &[bool]) -> Vec<u8> {
    bits.chunks_exact(8)
        .map(|c| (0..8).fold(0u8, |v, i| v | ((c[i] as u8) << i)))
        .collect()
}

#[test]
fn into_matches_frozen_original_poisoned_dense_and_padded() {
    for workers in [1, 3] {
        let pool = rayon::ThreadPoolBuilder::new()
            .num_threads(workers)
            .build()
            .unwrap();
        pool.install(|| {
            for (m, k_log, useful) in [
                (7usize, 7usize, 128usize),
                (10, 10, 1024),
                (17, 14, 15409),
                (18, 15, 31401),
                (10, 10, 0),
                (10, 10, 128),
            ] {
                let padding = PaddingSpec {
                    k_log,
                    useful_bits_per_block: useful,
                };
                let bits = 1usize << m;
                let mut a = vec![false; bits];
                let mut b = vec![false; bits];
                for i in 0..bits {
                    if i % (1usize << k_log) < useful {
                        a[i] = i % 7 < 3;
                        b[i] = i % 11 < 5;
                    }
                }
                let ap = pack_bits(&a);
                let bp = pack_bits(&b);
                let n = 1usize << (m - 6);
                for z in [F128::zero(), F128::one(), F128::new(u64::MAX, 0x715)] {
                    let table = UniSkipFoldTable::from_weights(&powers(z));
                    for challenge in [F128::zero(), F128::one(), F128::new(0xdeadbeef, u64::MAX)] {
                        let challenges = vec![challenge; m - 6];
                        let expected = univariate_fold_oracle(
                            &ap,
                            &bp,
                            m,
                            6,
                            &table,
                            &challenges,
                            &padding,
                        );
                        for poison in [F128::new(u64::MAX, u64::MAX), F128::new(0x123456, 0xabcdef)]
                        {
                            let mut ao = vec![poison; n];
                            let mut bo = vec![poison; n];
                            let msg = uni_skip_fold_and_round_pair_optimized_packed_padded_into(
                                &ap,
                                &bp,
                                m,
                                6,
                                &table,
                                &challenges,
                                &padding,
                                &mut ao,
                                &mut bo,
                            );
                            assert_eq!(ao, expected.0);
                            assert_eq!(bo, expected.1);
                            assert_eq!(msg, (expected.2, expected.3));
                        }
                        let wrapper = uni_skip_fold_and_round_pair_optimized_packed_padded(
                            &ap,
                            &bp,
                            m,
                            6,
                            &table,
                            &challenges,
                            &padding,
                        );
                        assert_eq!(wrapper, expected);
                    }
                }
            }
        });
    }
}

#[test]
fn folded_rows_sum_the_weights_of_set_bits() {
    let z = F128::new(0x1234567, 0x89);
    let weights = powers(z);
    let table = UniSkipFoldTable::from_weights(&weights);
    let plane: Vec<u8> = (0..32u32).map(|i| (i * 37 + 11) as u8).collect();
    for row in 0..4 {
        let mut expected = F128::zero();
        for bit in 0..64 {
            if (plane[8 * row + bit / 8] >> (bit % 8)) & 1 == 1 {
                expected = expected + weights[bit];
            }
        }
        assert_eq!(table.fold_one_row(&plane, row), expected);
    }
}

#[test]
fn padding_skip_does_not_show_on_zero_padded_planes() {
    let table = UniSkipFoldTable::from_weights(&powers(F128::new(77, 5)));
    let m = 11usize;
    let skipping = PaddingSpec {
        k_log: 9,
        useful_bits_per_block: 130,
    };
    let mut a = vec![false; 1 << m];
    let mut b = a.clone();
    for i in 0..1usize << m {
        if i % 512 < 130 {
            a[i] = i % 3 == 0;
            b[i] = i % 5 != 0;
        }
    }
    let (ap, bp) = (pack_bits(&a), pack_bits(&b));
    let challenges: Vec<F128> = (0..5).map(|i| F128::new(i + 9, i)).collect();
    let dense = PaddingSpec::dense(m);
    let skipped = univariate_fold_oracle(&ap, &bp, m, 6, &table, &challenges, &skipping);
    let full = univariate_fold_oracle(&ap, &bp, m, 6, &table, &challenges, &dense);
    assert_eq!(skipped, full);
    assert_eq!(
        uni_skip_fold_and_round_pair_optimized_packed_padded(
            &ap, &bp, m, 6, &table, &challenges, &skipping,
        ),
        full
    );
    assert_eq!(
        round_pair_naive(&full.0, &full.1, &challenges),
        (full.2, full.3)
    );
}

#[test]
fn chunks_put_together_are_the_whole_fold() {
    let table = UniSkipFoldTable::from_weights(&powers(F128::new(3, 1)));
    let m = 12usize;
    let padding = PaddingSpec::dense(m);
    let ap: Vec<u8> = (0..512u32).map(|i| (i * 151) as u8).collect();
    let bp: Vec<u8> = (0..512u32).map(|i| (i * 29 + 3) as u8).collect();
    let challenges: Vec<F128> = (0..6).map(|i| F128::new(2 * i + 1, 7)).collect();
    let whole = univariate_fold_oracle(&ap, &bp, m, 6, &table, &challenges, &padding);
    let eq = SplitEq::new(&challenges[1..]);
    // Computed backwards, put together in order.
    let mut chunks: Vec<FoldedChunk> = (0..eq.hi.len())
        .rev()
        .map(|x| fold_chunk(&ap, &bp, &table, &eq, &padding, x))
        .collect();
    chunks.reverse();
    assert_eq!(join_chunks(chunks, challenges[0]), whole);
}

#[test]
fn shapes_that_do_not_fit_are_told_apart() {
    let m = 10usize;
    let packed = vec![0u8; 1usize << (m - 3)];
    for case in 0..11 {
        let mut table = UniSkipFoldTable::from_weights(&powers(F128::one()));
        let mut padding = PaddingSpec::dense(m);
        let mut challenges = vec![F128::one(); m - 6];
        let mut input = packed.clone();
        match case {
            1 => {
                input.push(0);
            }
            2 => {
                input.pop();
            }
            3 => {
                challenges.pop();
            }
            4 => {
                table.data.pop();
            }
            5 => padding.k_log = usize::MAX,
            6 => padding.useful_bits_per_block = (1usize << m) + 1,
            10 => table.n_chunks = 7,
            _ => {}
        }
        let k = if case == 9 { 5 } else { 6 };
        let bad_m = match case {
            7 => 5,
            8 => usize::MAX,
            _ => m,
        };
        let fits =
            fold_shape_admitted(&input, &packed, bad_m, k, &table, &challenges, &padding);
        assert_eq!(fits, case == 0, "case {case}");
    }
}

#[test]
fn skip_pattern_has_the_period_of_a_block() {
    let spec = PaddingSpec {
        k_log: 10,
        useful_bits_per_block: 129,
    };
    assert_eq!(spec.round2_pair_skip(), (8, 2));
    let none = PaddingSpec {
        k_log: 7,
        useful_bits_per_block: 0,
    };
    assert_eq!(none.round2_pair_skip(), (1, 0));
    assert_eq!(PaddingSpec::dense(9).round2_pair_skip(), (4, 4));
}
