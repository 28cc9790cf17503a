use flock_core::cpu_ab::{CpuBackend, Fault};
use flock_core::field::F128;
use flock_core::mix_transcript::MixTranscript;
use flock_core::padding::PaddingSpec;
use flock_core::resident_ab::prove_capture_with_backend;
use flock_core::rounds::{fold_in_place_pair, round_pair_naive};
use flock_core::samples::padded_inputs;
use flock_core::transcript::Challenger;
use flock_core::univariate::{
    uni_skip_fold_and_round_pair_optimized_packed_padded, UniSkipFoldTable,
};
use flock_core::zerocheck::{
    AbBackend, ProtocolConstants, ProverOptions, Round1Mode, Round1Output, SkipKernels,
    ZerocheckClaim, ZerocheckProof,
};
use flock_core::zerocheck_host::prove_packed_padded_capture_s_hat_v_c_with_options;

fn powers(z: F128) -> Vec<F128> {
    let mut weights = vec![F128::one()];
    while weights.len() < 64 {
        let last = weights[weights.len() - 1];
        weights.push(last * z);
    }
    weights
}

/// A stand-in for the first-round sums: they depend on every input, and on the mode
/// only as far as it asks for the packed vector.
fn round1(
    mode: Option<Round1Mode>,
    a: &[u8],
    b: &[u8],
    c: &[u8],
    m: usize,
    r: &[F128],
    padding: &PaddingSpec,
) -> Round1Output {
    let digest = |plane: &[u8]| -> u64 {
        plane.iter().fold(m as u64 + padding.k_log as u64, |h, x| {
            (h ^ *x as u64).wrapping_mul(0x100000001b3)
        })
    };
    let weight = r.iter().fold(F128::one(), |w, x| w * *x + F128::one());
    let (da, db, dc) = (digest(a), digest(b), digest(c));
    Round1Output {
        ab: (0..64).map(|i| F128::new(da + i, db) * weight).collect(),
        c: (0..64).map(|i| F128::new(dc ^ i, i) * weight).collect(),
        s_hat_v: if mode.is_some() {
            (0..128).map(|i| F128::new(dc, i)).collect()
        } else {
            Vec::new()
        },
    }
}

fn interpolate(v: &[F128], z: F128) -> F128 {
    v.iter().fold(F128::zero(), |acc, x| acc * z + *x)
}

fn fold_table(z: F128) -> UniSkipFoldTable {
    UniSkipFoldTable::from_weights(&powers(z))
}

fn constants() -> ProtocolConstants {
    ProtocolConstants {
        small: [F128::new(11, 1), F128::new(12, 2), F128::new(13, 3)],
        medium: [
            F128::new(21, 4),
            F128::new(22, 5),
            F128::new(23, 6),
            F128::new(24, 7),
        ],
        c_s: F128::new(31, 8),
    }
}

/// The host alone: no provider, no fused kernel.
fn prove_on_host(
    a: &[u8],
    b: &[u8],
    c: &[u8],
    m: usize,
    padding: &PaddingSpec,
    transcript: &mut MixTranscript,
) -> (ZerocheckProof, ZerocheckClaim, Vec<F128>) {
    let k = constants();
    transcript.observe_label("flock-zerocheck-v0");
    let mut r = transcript.sample_f128_vec(6);
    let outer = transcript.sample_f128_vec(m - 13);
    r.extend(k.small);
    r.extend(k.medium);
    r.extend(outer);
    let out = round1(Some(Round1Mode::Reduced), a, b, c, m, &r, padding);
    let round1_ab: Vec<F128> = out.ab.iter().map(|x| k.c_s * *x).collect();
    let round1_c: Vec<F128> = out.c.iter().map(|x| k.c_s * *x).collect();
    transcript.observe_f128_slice(&round1_ab);
    transcript.observe_f128_slice(&round1_c);
    let z = transcript.sample_f128();
    let c_eval = interpolate(&round1_c, z);
    let point = |i: usize| -> Vec<F128> {
        let mut p = vec![F128::one()];
        p.extend(&r[6 + 1 + i..]);
        p
    };
    let (mut pa, mut pb, one, inf) = uni_skip_fold_and_round_pair_optimized_packed_padded(
        a,
        b,
        m,
        6,
        &fold_table(z),
        &point(0),
        padding,
    );
    let mut messages = vec![(one, inf)];
    let mut rhos = Vec::new();
    for i in 1..=m - 6 {
        let last = messages[i - 1];
        transcript.observe_f128(last.0);
        transcript.observe_f128(last.1);
        let rho = transcript.sample_f128();
        rhos.push(rho);
        fold_in_place_pair(&mut pa, &mut pb, rho);
        if i < m - 6 {
            messages.push(round_pair_naive(&pa, &pb, &point(i)));
        }
    }
    transcript.observe_f128(pa[0]);
    transcript.observe_f128(pb[0]);
    (
        ZerocheckProof {
            round1_ab,
            round1_c,
            multilinear_rounds: messages,
            final_a_eval: pa[0],
            final_b_eval: pb[0],
            final_c_eval: c_eval,
        },
        ZerocheckClaim {
            z,
            mlv_challenges: rhos,
            r_rest: r[6..].to_vec(),
            a_eval: pa[0],
            b_eval: pb[0],
            c_eval,
        },
        out.s_hat_v,
    )
}

#[test]
fn cpu_backend_real_transcript_proof_and_verifier_parity() {
    let kernels = SkipKernels {
        constants: constants(),
        round1,
        interpolate,
        fold_table,
    };
    rayon::ThreadPoolBuilder::new()
        .num_threads(3)
        .build()
        .unwrap()
        .install(|| {
            for m in [19, 20] {
                for useful in [8192, 3000] {
                    let inputs = padded_inputs(m, useful);
                    let mut reference = MixTranscript::new("portable-resident-ab");
                    let expected = prove_on_host(
                        &inputs.a,
                        &inputs.b,
                        &inputs.c,
                        m,
                        &inputs.padding,
                        &mut reference,
                    );
                    let after = reference.sample_f128_vec(4);
                    for round1 in [Round1Mode::Reduced, Round1Mode::Deferred] {
                        for fused_tail in [false, true] {
                            let options = ProverOptions { round1, fused_tail };
                            let mut transcript = MixTranscript::new("portable-resident-ab");
                            let mut backend = CpuBackend::new(m, Fault::Absent);
                            let actual = prove_capture_with_backend(
                                &inputs.a,
                                &inputs.b,
                                &inputs.c,
                                m,
                                &inputs.padding,
                                options,
                                &kernels,
                                &mut transcript,
                                &mut backend,
                            )
                            .unwrap();
                            assert_eq!(actual, expected);
                            assert_eq!(backend.counts, [1, m - 18, 1]);
                            assert_eq!(transcript.sample_f128_vec(4), after);
                        }
                    }
                }
            }
        });
}

#[test]
fn cpu_backend_errors_and_malformed_tails_are_fatal() {
    let kernels = SkipKernels {
        constants: constants(),
        round1,
        interpolate,
        fold_table,
    };
    rayon::ThreadPoolBuilder::new()
        .num_threads(3)
        .build()
        .unwrap()
        .install(|| {
            let m = 19;
            let inputs = padded_inputs(m, 3000);
            for (fault, expected, calls) in [
                (Fault::Produce, "injected produce", [1, 0, 0]),
                (Fault::Advance, "injected advance", [1, 1, 0]),
                (Fault::Finish, "injected finish", [1, 1, 1]),
                (Fault::ShortA, "backend tail geometry", [1, 1, 1]),
                (Fault::ShortB, "backend tail geometry", [1, 1, 1]),
            ] {
                let mut backend = CpuBackend::new(m, fault);
                let mut transcript = MixTranscript::new("portable-errors");
                let result = prove_capture_with_backend(
                    &inputs.a,
                    &inputs.b,
                    &inputs.c,
                    m,
                    &inputs.padding,
                    ProverOptions::default(),
                    &kernels,
                    &mut transcript,
                    &mut backend,
                );
                assert_eq!(result.unwrap_err(), expected);
                assert_eq!(backend.counts, calls);
            }
        });
}

#[test]
fn cpu_backend_invalid_admission_preserves_transcript() {
    let kernels = SkipKernels {
        constants: constants(),
        round1,
        interpolate,
        fold_table,
    };
    let m = 19;
    let inputs = padded_inputs(m, 8192);
    for case in 0..5 {
        let mut backend = CpuBackend::new(m, Fault::Produce);
        if case == 3 {
            backend.rows /= 2;
        }
        let bad_padding = PaddingSpec {
            k_log: 20,
            useful_bits_per_block: 1,
        };
        let mut transcript = MixTranscript::new("portable-admission");
        let mut reference = MixTranscript::new("portable-admission");
        let result = prove_capture_with_backend(
            if case == 0 {
                &inputs.a[..inputs.a.len() - 1]
            } else {
                &inputs.a
            },
            &inputs.b,
            if case == 4 {
                &inputs.c[..inputs.c.len() - 1]
            } else {
                &inputs.c
            },
            if case == 1 { 18 } else { m },
            if case == 2 {
                &bad_padding
            } else {
                &inputs.padding
            },
            ProverOptions::default(),
            &kernels,
            &mut transcript,
            &mut backend,
        );
        assert!(result.is_err());
        assert_eq!(backend.counts, [0, 0, 0]);
        assert_eq!(transcript.sample_f128_vec(4), reference.sample_f128_vec(4));
    }
}

#[test]
fn admission_errors_name_what_is_wrong() {
    let kernels = SkipKernels {
        constants: constants(),
        round1,
        interpolate,
        fold_table,
    };
    let inputs = padded_inputs(19, 8192);
    for (m, useful, text) in [
        (18usize, 8192usize, "resident m admission"),
        (34, 8192, "resident m admission"),
        (19, 8193, "resident shape/padding admission"),
        (20, 8192, "resident shape/padding admission"),
    ] {
        let mut backend = CpuBackend::new(19, Fault::Absent);
        let mut transcript = MixTranscript::new("names");
        let padding = PaddingSpec {
            k_log: 13,
            useful_bits_per_block: useful,
        };
        let result = prove_capture_with_backend(
            &inputs.a,
            &inputs.b,
            &inputs.c,
            m,
            &padding,
            ProverOptions::default(),
            &kernels,
            &mut transcript,
            &mut backend,
        );
        assert_eq!(result.unwrap_err(), text);
        assert_eq!(backend.counts, [0, 0, 0]);
    }
}

#[test]
fn failed_export_stops_before_the_last_message() {
    let kernels = SkipKernels {
        constants: constants(),
        round1,
        interpolate,
        fold_table,
    };
    let m = 19;
    let inputs = padded_inputs(m, 3000);
    let mut backend = CpuBackend::new(m, Fault::Finish);
    let mut transcript = MixTranscript::new("stop");
    let result = prove_capture_with_backend(
        &inputs.a,
        &inputs.b,
        &inputs.c,
        m,
        &inputs.padding,
        ProverOptions::default(),
        &kernels,
        &mut transcript,
        &mut backend,
    );
    assert!(result.is_err());
    // The same transcript by hand, up to the first fold challenge.
    let mut whole = MixTranscript::new("stop");
    let (proof, claim, _) = prove_on_host(
        &inputs.a,
        &inputs.b,
        &inputs.c,
        m,
        &inputs.padding,
        &mut whole,
    );
    let mut expected = MixTranscript::new("stop");
    expected.observe_label("flock-zerocheck-v0");
    expected.sample_f128_vec(6);
    expected.sample_f128_vec(m - 13);
    expected.observe_f128_slice(&proof.round1_ab);
    expected.observe_f128_slice(&proof.round1_c);
    assert_eq!(expected.sample_f128(), claim.z);
    expected.observe_f128(proof.multilinear_rounds[0].0);
    expected.observe_f128(proof.multilinear_rounds[0].1);
    assert_eq!(expected.sample_f128(), claim.mlv_challenges[0]);
    assert_eq!(transcript.sample_f128(), expected.sample_f128());
}

#[test]
fn evaluations_are_values_of_the_planes_at_the_challenges() {
    let m = 19;
    let inputs = padded_inputs(m, 3000);
    let mut transcript = MixTranscript::new("values");
    let (_, claim, _) = prove_on_host(
        &inputs.a,
        &inputs.b,
        &inputs.c,
        m,
        &inputs.padding,
        &mut transcript,
    );
    let table = fold_table(claim.z);
    let eq = flock_core::multilinear::build_eq(&claim.mlv_challenges);
    let value = |plane: &[u8]| {
        (0..eq.len()).fold(F128::zero(), |v, row| {
            v + eq[row] * table.fold_one_row(plane, row)
        })
    };
    assert_eq!(value(&inputs.a), claim.a_eval);
    assert_eq!(value(&inputs.b), claim.b_eval);
}

#[test]
fn a_point_that_does_not_fit_is_refused_by_the_provider() {
    let mut backend = CpuBackend::new(19, Fault::Absent);
    backend.a = vec![F128::one(); 8];
    backend.b = vec![F128::one(); 8];
    let point = vec![F128::one(); 3];
    assert_eq!(
        backend.advance(F128::zero(), &point).unwrap_err(),
        "plane geometry"
    );
    assert_eq!(backend.a.len(), 4);
    let ok = backend.advance(F128::zero(), &point[..1]).unwrap();
    assert_eq!(ok, [F128::one(), F128::zero()]);
    assert_eq!(backend.counts, [0, 2, 0]);
}

#[test]
fn host_prover_makes_the_proof_by_hand() {
    let kernels = SkipKernels {
        constants: constants(),
        round1,
        interpolate,
        fold_table,
    };
    for (m, useful) in [(13, 8192), (14, 3000), (19, 3000)] {
        let inputs = padded_inputs(m, useful);
        let mut by_hand = MixTranscript::new("host-alone");
        let expected = prove_on_host(
            &inputs.a,
            &inputs.b,
            &inputs.c,
            m,
            &inputs.padding,
            &mut by_hand,
        );
        let next = by_hand.sample_f128();
        for round1 in [Round1Mode::Reduced, Round1Mode::Deferred] {
            for fused_tail in [false, true] {
                let mut transcript = MixTranscript::new("host-alone");
                let actual = prove_packed_padded_capture_s_hat_v_c_with_options(
                    &inputs.a,
                    &inputs.b,
                    &inputs.c,
                    m,
                    &inputs.padding,
                    ProverOptions { round1, fused_tail },
                    &kernels,
                    &mut transcript,
                );
                assert_eq!(actual, expected);
                assert_eq!(transcript.sample_f128(), next);
            }
        }
    }
}

#[test]
fn resident_prover_gives_what_the_host_prover_gives() {
    let kernels = SkipKernels {
        constants: constants(),
        round1,
        interpolate,
        fold_table,
    };
    let m = 19;
    for useful in [8192, 3000] {
        let inputs = padded_inputs(m, useful);
        let options = ProverOptions::default();
        let mut host_transcript = MixTranscript::new("parity");
        let host = prove_packed_padded_capture_s_hat_v_c_with_options(
            &inputs.a,
            &inputs.b,
            &inputs.c,
            m,
            &inputs.padding,
            options,
            &kernels,
            &mut host_transcript,
        );
        let mut transcript = MixTranscript::new("parity");
        let mut backend = CpuBackend::new(m, Fault::Absent);
        let resident = prove_capture_with_backend(
            &inputs.a,
            &inputs.b,
            &inputs.c,
            m,
            &inputs.padding,
            options,
            &kernels,
            &mut transcript,
            &mut backend,
        )
        .unwrap();
        assert_eq!(resident, host);
        assert_eq!(transcript.state, host_transcript.state);
        assert_eq!(backend.counts, [1, 1, 1]);
        assert!(backend.a.is_empty() && backend.b.is_empty());
    }
}

#[test]
fn a_failing_provider_keeps_its_planes() {
    let (a, b) = (vec![F128::one(); 8], vec![F128::new(3, 4); 8]);
    for fault in [Fault::Produce, Fault::Advance, Fault::Finish] {
        let mut backend = CpuBackend::new(19, fault);
        backend.a = a.clone();
        backend.b = b.clone();
        let failed = match fault {
            Fault::Produce => {
                let inputs = padded_inputs(19, 3000);
                let point = vec![F128::one(); 13];
                backend
                    .produce(
                        &inputs.a,
                        &inputs.b,
                        19,
                        6,
                        &fold_table(F128::new(5, 6)),
                        &point,
                        &inputs.padding,
                    )
                    .is_err()
            }
            Fault::Advance => backend
                .advance(F128::new(7, 8), &[F128::one(), F128::one()])
                .is_err(),
            _ => backend.finish().is_err(),
        };
        assert!(failed);
        assert_eq!(backend.a, a);
        assert_eq!(backend.b, b);
    }
}

#[test]
fn faults_end_a_longer_run_after_as_many_folds_as_they_let_through() {
    let kernels = SkipKernels {
        constants: constants(),
        round1,
        interpolate,
        fold_table,
    };
    let m = 20;
    let inputs = padded_inputs(m, 3000);
    for (fault, expected, calls) in [
        (Fault::Produce, "injected produce", [1, 0, 0]),
        (Fault::Advance, "injected advance", [1, 1, 0]),
        (Fault::Finish, "injected finish", [1, 2, 1]),
        (Fault::ShortB, "backend tail geometry", [1, 2, 1]),
    ] {
        let mut ends = Vec::new();
        for _ in 0..2 {
            let mut backend = CpuBackend::new(m, fault);
            let mut transcript = MixTranscript::new("longer-errors");
            let result = prove_capture_with_backend(
                &inputs.a,
                &inputs.b,
                &inputs.c,
                m,
                &inputs.padding,
                ProverOptions::default(),
                &kernels,
                &mut transcript,
                &mut backend,
            );
            assert_eq!(result.unwrap_err(), expected);
            assert_eq!(backend.counts, calls);
            ends.push(transcript.state);
        }
        assert_eq!(ends[0], ends[1]);
    }
}

/// The inverse, as the power that it is in a field of `2^128` elements.
fn inverse(x: F128) -> F128 {
    let mut square = x;
    let mut product = F128::one();
    for _ in 1..128 {
        square = square * square;
        product = product * square;
    }
    product
}

#[test]
fn a_reader_follows_the_sums_to_the_product_of_the_evaluations() {
    let kernels = SkipKernels {
        constants: constants(),
        round1,
        interpolate,
        fold_table,
    };
    let m = 19;
    let inputs = padded_inputs(m, 3000);
    let mut transcript = MixTranscript::new("sums");
    let (proof, claim, _) = prove_capture_with_backend(
        &inputs.a,
        &inputs.b,
        &inputs.c,
        m,
        &inputs.padding,
        ProverOptions::default(),
        &kernels,
        &mut transcript,
        &mut CpuBackend::new(m, Fault::Absent),
    )
    .unwrap();
    let table = fold_table(claim.z);
    let (mut a, mut b): (Vec<F128>, Vec<F128>) = (0..1usize << (m - 6))
        .map(|row| {
            (
                table.fold_one_row(&inputs.a, row),
                table.fold_one_row(&inputs.b, row),
            )
        })
        .unzip();
    let sum_of = |a: &[F128], b: &[F128], point: &[F128]| {
        let eq = flock_core::multilinear::build_eq(point);
        (0..a.len()).fold(F128::zero(), |s, x| s + eq[x] * (a[x] * b[x]))
    };
    let mut sum = sum_of(&a, &b, &claim.r_rest);
    for i in 0..m - 6 {
        let p = claim.r_rest[i];
        let (one, inf) = proof.multilinear_rounds[i];
        let rho = claim.mlv_challenges[i];
        let factor = inverse(F128::one() + p);
        assert_eq!(factor * (F128::one() + p), F128::one());
        let zero = factor * (sum + p * one);
        sum = zero + rho * (((zero + one) + inf) + rho * inf);
        fold_in_place_pair(&mut a, &mut b, rho);
        assert_eq!(sum, sum_of(&a, &b, &claim.r_rest[i + 1..]), "round {i}");
    }
    assert_eq!(sum, claim.a_eval * claim.b_eval);
}
