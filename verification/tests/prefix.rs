use flock_core::batch::{
    open_batch, open_batch_with_resident_prefix, ClaimCombiner, DirectClaims,
};
use flock_core::cpu_prefix::{CpuPrefix, StartedCpu, StartedFault};
use flock_core::field::F128;
use flock_core::ligerito::{
    ceil_log2, exact_log2, Digest, LigeritoProof, LigeroWitness, PcsKernels, ProverConfig,
};
use flock_core::mix_transcript::MixTranscript;
use flock_core::multilinear::build_eq;
use flock_core::opening::{
    combine_direct_claims, geometry_admitted, open_combined,
    recursive_prover_with_basis_precomputed_round0, CombinedClaims, PackedDirectClaim, PcsParams,
    LOG_PACKING,
};
use flock_core::resident_prefix::{prove_with_backend, InitialFoldBackend};
use flock_core::samples::{claim_at, direct, fixture, values};
use flock_core::started_prefix::{prove_with_started_backend, StartedFoldBackend};
use flock_core::sumcheck::{compute_inner, compute_message, SumcheckMessage, SumcheckProver};
use flock_core::transcript::Challenger;

// Stand-ins for the code, the tree and the induced bases. Each depends on all its
// arguments.

fn digest_of(parts: &[u128]) -> Digest {
    let mut state = [0x6a09e667f3bcc908u64, 0xbb67ae8584caa73b, 3, 4];
    for p in parts {
        for i in 0..4 {
            let word = (*p >> (32 * i)) as u64 ^ state[(i + 1) % 4];
            state[i] = (state[i] ^ word).wrapping_mul(0x9e3779b97f4a7c15).rotate_left(29);
        }
    }
    let mut out = [0u8; 32];
    for i in 0..4 {
        out[8 * i..8 * i + 8].copy_from_slice(&state[i].to_le_bytes());
    }
    out
}

fn as_number(d: &Digest) -> u128 {
    let mut n = 0u128;
    for byte in d {
        n = n.wrapping_mul(257).wrapping_add(*byte as u128);
    }
    n
}

fn commit(f: &[F128], columns: usize, interleaved: usize, rate: usize) -> LigeroWitness {
    let block_len = 1usize << (columns + rate);
    let num_interleaved = 1usize << interleaved;
    let codeword: Vec<F128> = (0..block_len * num_interleaved)
        .map(|i| f[i % f.len()] * F128::new(i as u64 + 1, rate as u64))
        .collect();
    let mut tree: Vec<Digest> = (0..block_len)
        .map(|q| {
            let row: Vec<u128> = codeword[q * num_interleaved..(q + 1) * num_interleaved]
                .iter()
                .map(|x| x.bits)
                .collect();
            digest_of(&row)
        })
        .collect();
    let mut next = 0;
    while tree.len() < 2 * block_len - 1 {
        let node = digest_of(&[as_number(&tree[next]), as_number(&tree[next + 1])]);
        tree.push(node);
        next += 2;
    }
    LigeroWitness {
        codeword,
        tree,
        block_len,
        num_interleaved,
    }
}

fn multi_proof(tree: &[Digest], leaves: usize, picks: &[usize]) -> Vec<Digest> {
    picks.iter().map(|q| tree[(q ^ 1) % leaves]).collect()
}

fn induce(
    n: usize,
    rows: &[Vec<F128>],
    lanes: &[F128],
    picks: &[usize],
    alpha: &[F128],
) -> (Vec<F128>, F128) {
    let weights = build_eq(lanes);
    let scale = build_eq(alpha);
    let mut sum = F128::zero();
    for (i, row) in rows.iter().enumerate() {
        sum = sum + scale[i] * compute_inner(row, &weights);
    }
    let basis = (0..1u64 << n)
        .map(|i| {
            let q = picks[i as usize % picks.len()] as u64;
            F128::new(i + 1, q) * scale[i as usize % scale.len()]
        })
        .collect();
    (basis, sum)
}

fn induce_initial(
    n: usize,
    rate: usize,
    rows: &[Vec<F128>],
    lanes: &[F128],
    picks: &[usize],
    alpha: &[F128],
) -> (Vec<F128>, F128) {
    let (basis, sum) = induce(n, rows, lanes, picks, alpha);
    (basis, sum + F128::new(rate as u64, 0))
}

fn config(batch: usize, rate: usize) -> ProverConfig {
    ProverConfig {
        initial_k: batch,
        recursive_steps: 2,
        recursive_ks: vec![3, 2],
        log_inv_rates: vec![rate, 1, 2],
        queries: vec![9, 6, 5],
        grinding_bits: vec![4, 3, 2],
        fold_grinding_bits: vec![2, 1],
        ood_samples: vec![0, 1, 2],
        initial_log_msg_cols: 12 - batch,
        initial_log_num_interleaved: batch,
    }
}

/// The combination of one claim, with a factor drawn after its value was sent.
fn combine(w: &[F128], claim: &PackedDirectClaim, ch: &mut MixTranscript) -> CombinedClaims<u8> {
    ch.observe_f128(claim.value);
    let gamma = ch.sample_f128();
    let mut combined = combine_direct_claims(w, std::slice::from_ref(claim), &[gamma]);
    combined.ring_switches.push(7);
    combined
}

#[test]
fn combined_claims_are_the_sum_of_their_parts() {
    for log in [3usize, 12] {
        let w = values(1 << log);
        let claims = [direct(&w, log, false), direct(&w, log, true)];
        let gammas = [F128::new(5, 6), F128::new(7, 8)];
        let combined: CombinedClaims<u8> = combine_direct_claims(&w, &claims, &gammas);
        let mut materialized = vec![F128::zero(); w.len()];
        for (p, g) in claims.iter().zip(&gammas) {
            for (b, e) in materialized.iter_mut().zip(build_eq(&p.point)) {
                *b = *b + *g * e;
            }
        }
        assert_eq!(combined.b_combined, materialized);
        assert_eq!(
            combined.target_combined,
            gammas[0] * claims[0].value + gammas[1] * claims[1].value
        );
        assert_eq!(combined.target_combined, compute_inner(&w, &materialized));
        let message = compute_message(&w, &materialized);
        assert_eq!(combined.round0_prime, (message.u_0, message.u_2));
        assert!(combined.ring_switches.is_empty());
    }
    let none: CombinedClaims<u8> = combine_direct_claims(&values(4), &[], &[]);
    assert_eq!(none.b_combined, vec![F128::zero(); 4]);
    assert_eq!(none.target_combined, F128::zero());
}

fn case_point(case: usize) -> Vec<F128> {
    (0..12)
        .map(|i| match case {
            0 => F128::zero(),
            1 => F128::one(),
            _ => F128::new(0x715 + i, u64::MAX - i),
        })
        .collect()
}

#[test]
fn resident_prefix_cpu_backend_matches_original_proof_and_transcript() {
    let kernels = PcsKernels {
        commit,
        multi_proof,
        induce_initial,
        induce,
    };
    for (case, (batch, rate)) in [(2, 1), (3, 2), (4, 1)].into_iter().enumerate() {
        let witness = fixture(12, 0);
        let data = commit(&witness, 12 - batch, batch, rate);
        let cfg = config(batch, rate);
        let claim = claim_at(&witness, case_point(case));
        let mut host_ch = MixTranscript::new("borrowed-direct");
        let combined = combine(&witness, &claim, &mut host_ch);
        let on_host = recursive_prover_with_basis_precomputed_round0(
            &cfg,
            witness.clone(),
            combined.b_combined,
            combined.target_combined,
            &data.codeword,
            &data.tree,
            combined.round0_prime,
            &kernels,
            &mut host_ch,
        );
        let params = PcsParams {
            m: 12 + LOG_PACKING,
            log_inv_rate: rate,
            log_batch_size: batch,
        };
        let mut borrowed_ch = MixTranscript::new("borrowed-direct");
        let combined = combine(&witness, &claim, &mut borrowed_ch);
        let borrowed = open_combined(
            witness.clone(),
            &data.codeword,
            &data.tree,
            &params,
            combined,
            &cfg,
            &kernels,
            &mut borrowed_ch,
        )
        .unwrap();
        assert_eq!(borrowed.ring_switches, vec![7]);
        assert_eq!(borrowed.ligerito, on_host);
        let mut backend = CpuPrefix::new();
        let mut resident_ch = MixTranscript::new("borrowed-direct");
        let combined = combine(&witness, &claim, &mut resident_ch);
        let resident = prove_with_backend(
            &cfg,
            witness.clone(),
            combined.b_combined,
            combined.target_combined,
            &data.codeword,
            &data.tree,
            Some(SumcheckMessage {
                u_0: combined.round0_prime.0,
                u_2: combined.round0_prime.1,
            }),
            &kernels,
            &mut resident_ch,
            &mut backend,
        )
        .unwrap();
        assert_eq!(resident, on_host);
        assert_eq!(backend.advances, batch);
        // The first message computed by the host is the one that was handed in.
        let mut computed_ch = MixTranscript::new("borrowed-direct");
        let combined = combine(&witness, &claim, &mut computed_ch);
        let computed = prove_with_backend(
            &cfg,
            witness.clone(),
            combined.b_combined,
            combined.target_combined,
            &data.codeword,
            &data.tree,
            None,
            &kernels,
            &mut computed_ch,
            &mut CpuPrefix::new(),
        )
        .unwrap();
        assert_eq!(computed, on_host);
        let next = host_ch.sample_f128();
        assert_eq!(resident_ch.sample_f128(), next);
        assert_eq!(computed_ch.sample_f128(), next);
        assert_eq!(borrowed_ch.sample_f128(), next);
        check_layout(&on_host, batch);
    }
}

/// The sizes of everything in a proof of the test configuration.
fn check_layout(proof: &LigeritoProof, batch: usize) {
    assert_eq!(proof.initial_proof.opened_rows.len(), 9);
    for row in &proof.initial_proof.opened_rows {
        assert_eq!(row.len(), 1 << batch);
    }
    assert_eq!(proof.recursive_roots.len(), 2);
    assert_eq!(proof.recursive_proofs.len(), 1);
    assert_eq!(proof.recursive_proofs[0].opened_rows.len(), 6);
    assert_eq!(proof.recursive_proofs[0].opened_rows[0].len(), 8);
    assert_eq!(proof.final_proof.yr.len(), 1 << (12 - batch - 5));
    assert_eq!(proof.final_proof.opened_rows.len(), 5);
    assert_eq!(proof.final_proof.opened_rows[0].len(), 4);
    assert_eq!(proof.grinding_nonces.len(), 3);
    // One sample for the first commitment of the proof, two for the second.
    assert_eq!(proof.ood_values.len(), 3);
    // Two bits taper to one and to none, one bit tapers to none.
    assert_eq!(proof.fold_grinding_nonces.len(), 3);
    // The first message, every fold, every sample and every induced basis.
    assert_eq!(proof.sumcheck_transcript.len(), 1 + batch + 5 + 3 + 2);
}

struct Fault {
    inner: CpuPrefix,
    phase: u8,
    calls: [usize; 4],
}

impl InitialFoldBackend for Fault {
    fn admit_prefix(&self, n: usize, rounds: usize) -> Result<(), String> {
        if self.phase == 0 {
            return Err("injected admission".into());
        }
        self.inner.admit_prefix(n, rounds)
    }
    fn begin(&mut self, a: Vec<F128>, b: Vec<F128>) -> Result<(), String> {
        self.calls[0] += 1;
        if self.phase == 1 {
            return Err("injected begin".into());
        }
        self.inner.begin(a, b)
    }
    fn advance(&mut self, r: F128) -> Result<SumcheckMessage, String> {
        self.calls[1] += 1;
        if self.phase == 2 && self.calls[1] == 2 {
            return Err("injected advance".into());
        }
        self.inner.advance(r)
    }
    fn finish(&mut self) -> Result<(Vec<F128>, Vec<F128>), String> {
        self.calls[2] += 1;
        if self.phase == 3 {
            return Err("injected finish".into());
        }
        let (mut a, mut b) = self.inner.finish()?;
        if self.phase == 4 {
            a.pop();
        }
        if self.phase == 5 {
            b.pop();
        }
        self.calls[3] += 1;
        Ok((a, b))
    }
}

#[test]
fn resident_prefix_failures_and_malformed_tails_are_fatal_without_replay() {
    let kernels = PcsKernels {
        commit,
        multi_proof,
        induce_initial,
        induce,
    };
    let witness = fixture(12, 0);
    let data = commit(&witness, 9, 3, 1);
    let cfg = config(3, 1);
    let params = PcsParams {
        m: 12 + LOG_PACKING,
        log_inv_rate: 1,
        log_batch_size: 3,
    };
    let claim = || claim_at(&witness, vec![F128::one(); 12]);
    for phase in 0..6 {
        let mut final_challenges = Vec::new();
        for _ in 0..2 {
            let mut backend = Fault {
                inner: CpuPrefix::new(),
                phase,
                calls: [0; 4],
            };
            let mut ch = MixTranscript::new("resident-failure");
            let error = match open_batch_with_resident_prefix(
                witness.clone(),
                &data.codeword,
                &data.tree,
                &params,
                &OneClaim { claim: claim() },
                &cfg,
                &kernels,
                &mut ch,
                &mut backend,
            ) {
                Ok(_) => panic!("phase {phase} succeeded"),
                Err(e) => e,
            };
            let (text, calls) = match phase {
                0 => ("injected admission", [0, 0, 0, 0]),
                1 => ("injected begin", [1, 0, 0, 0]),
                2 => ("injected advance", [1, 2, 0, 0]),
                3 => ("injected finish", [1, 3, 1, 0]),
                _ => ("resident PCS tail shape", [1, 3, 1, 1]),
            };
            assert_eq!(error, text);
            assert_eq!(backend.calls, calls);
            // Independent host-only prefix: stop before the failed operation's output.
            let mut expected_ch = MixTranscript::new("resident-failure");
            if phase != 0 {
                let combined = combine(&witness, &claim(), &mut expected_ch);
                expected_ch.observe_label("flock-ligerito-basis-v0");
                expected_ch.observe_f128(combined.target_combined);
                expected_ch.observe_bytes(data.tree.last().unwrap());
                if phase != 1 {
                    let first = SumcheckMessage {
                        u_0: combined.round0_prime.0,
                        u_2: combined.round0_prime.1,
                    };
                    let (mut cpu, _) = SumcheckProver::new_with_first_msg(
                        witness.clone(),
                        combined.b_combined,
                        combined.target_combined,
                        first,
                    );
                    expected_ch.observe_f128(first.u_0);
                    expected_ch.observe_f128(first.u_2);
                    for j in 0..3 {
                        let bits = 2u32.saturating_sub(j as u32);
                        if bits > 0 {
                            expected_ch.grind_pow(bits);
                        }
                        let rho = expected_ch.sample_f128();
                        if phase == 2 && j == 1 {
                            break;
                        }
                        let msg = cpu.fold(rho);
                        expected_ch.observe_f128(msg.u_0);
                        expected_ch.observe_f128(msg.u_2);
                    }
                }
            }
            let next = ch.sample_f128();
            assert_eq!(next, expected_ch.sample_f128(), "stop in phase {phase}");
            let untouched = MixTranscript::new("resident-failure").sample_f128();
            if phase == 0 {
                assert_eq!(next, untouched);
            } else {
                assert_ne!(next, untouched);
            }
            final_challenges.push(next);
        }
        // A fresh deterministic attempt stops at the same point.
        assert_eq!(final_challenges[0], final_challenges[1]);
    }
}

#[test]
fn prefix_shapes_are_refused_before_anything_is_called() {
    let kernels = PcsKernels {
        commit,
        multi_proof,
        induce_initial,
        induce,
    };
    for (rows, basis, k) in [
        (2usize, 2usize, 1usize),
        (12, 12, 1),
        (16, 8, 1),
        (16, 16, 0),
        (16, 16, 4),
    ] {
        let mut cfg = config(3, 1);
        cfg.initial_k = k;
        let mut backend = Fault {
            inner: CpuPrefix::new(),
            phase: 1,
            calls: [0; 4],
        };
        let mut ch = MixTranscript::new("shape");
        let error = prove_with_backend(
            &cfg,
            vec![F128::one(); rows],
            vec![F128::one(); basis],
            F128::one(),
            &[],
            &[],
            None,
            &kernels,
            &mut ch,
            &mut backend,
        )
        .unwrap_err();
        assert_eq!(error, "resident PCS prefix shape");
        assert_eq!(backend.calls, [0; 4]);
        assert_eq!(ch.sample_f128(), MixTranscript::new("shape").sample_f128());
    }
}

fn started_fixture(k: usize) -> (Vec<F128>, LigeroWitness, ProverConfig, PackedDirectClaim) {
    let w = fixture(12, 3);
    let d = commit(&w, 12 - k, k, 1);
    let point: Vec<F128> = (0..12).map(|i| F128::new(i + 31, i + 17)).collect();
    let claim = claim_at(&w, point);
    (w, d, config(k, 1), claim)
}

#[test]
fn started_prefix_matches_original_proof_and_next_challenge() {
    let kernels = PcsKernels {
        commit,
        multi_proof,
        induce_initial,
        induce,
    };
    for k in [2, 3, 4] {
        let (w, d, cfg, claim) = started_fixture(k);
        let mut old_ch = MixTranscript::new("started-prefix");
        let combined = combine(&w, &claim, &mut old_ch);
        let old = recursive_prover_with_basis_precomputed_round0(
            &cfg,
            w.clone(),
            combined.b_combined,
            combined.target_combined,
            &d.codeword,
            &d.tree,
            combined.round0_prime,
            &kernels,
            &mut old_ch,
        );
        let mut ch = MixTranscript::new("started-prefix");
        let combined = combine(&w, &claim, &mut ch);
        let mut backend = StartedCpu::new(w, combined.b_combined, StartedFault::Absent);
        let new = prove_with_started_backend(
            &cfg,
            1 << 12,
            combined.target_combined,
            &d.codeword,
            &d.tree,
            SumcheckMessage {
                u_0: combined.round0_prime.0,
                u_2: combined.round0_prime.1,
            },
            &kernels,
            &mut ch,
            &mut backend,
        )
        .unwrap();
        assert_eq!(old, new);
        assert_eq!(ch.sample_f128(), old_ch.sample_f128());
        assert_eq!(backend.advances, k);
        assert_eq!(backend.finishes, 1);
        assert!(backend.a.is_empty() && backend.b.is_empty());
    }
}

#[test]
fn started_prefix_admission_and_late_errors_never_restart() {
    let kernels = PcsKernels {
        commit,
        multi_proof,
        induce_initial,
        induce,
    };
    let (w, d, cfg, claim) = started_fixture(3);
    for (number, fault) in [
        (1, StartedFault::Admission),
        (2, StartedFault::Advance),
        (3, StartedFault::Finish),
        (4, StartedFault::ShortA),
        (5, StartedFault::ShortB),
    ] {
        let mut results = Vec::new();
        for _ in 0..2 {
            let mut ch = MixTranscript::new("started-prefix-errors");
            let combined = combine(&w, &claim, &mut ch);
            let mut baseline = MixTranscript::new("started-prefix-errors");
            let reference = combine(&w, &claim, &mut baseline);
            let start = SumcheckMessage {
                u_0: reference.round0_prime.0,
                u_2: reference.round0_prime.1,
            };
            if number != 1 {
                baseline.observe_label("flock-ligerito-basis-v0");
                baseline.observe_f128(reference.target_combined);
                baseline.observe_bytes(d.tree.last().unwrap());
                baseline.observe_f128(start.u_0);
                baseline.observe_f128(start.u_2);
                let (mut cpu, _) = SumcheckProver::new_with_first_msg(
                    w.clone(),
                    reference.b_combined,
                    reference.target_combined,
                    start,
                );
                for j in 0..cfg.initial_k {
                    let bits = (cfg.fold_grinding_bits[0] as u32).saturating_sub(j as u32);
                    if bits > 0 {
                        let _ = baseline.grind_pow(bits);
                    }
                    let rho = baseline.sample_f128();
                    // The second fold fails after its challenge, before its message.
                    if number == 2 && j == 1 {
                        break;
                    }
                    let msg = cpu.fold(rho);
                    baseline.observe_f128(msg.u_0);
                    baseline.observe_f128(msg.u_2);
                }
            }
            let mut backend = StartedCpu::new(w.clone(), combined.b_combined, fault);
            let error = prove_with_started_backend(
                &cfg,
                w.len(),
                combined.target_combined,
                &d.codeword,
                &d.tree,
                start,
                &kernels,
                &mut ch,
                &mut backend,
            )
            .unwrap_err();
            let expected = match number {
                1 => "admission",
                2 => "advance",
                3 => "finish",
                _ => "resident PCS tail shape",
            };
            assert_eq!(error, expected);
            assert_eq!(
                backend.advances,
                match number {
                    1 => 0,
                    2 => 2,
                    _ => 3,
                }
            );
            assert_eq!(backend.finishes, if number <= 2 { 0 } else { 1 });
            let next = ch.sample_f128();
            assert_eq!(next, baseline.sample_f128(), "stop with fault {number}");
            results.push(next);
        }
        assert_eq!(results[0], results[1]);
    }
}

#[test]
fn started_provider_wants_its_planes_and_no_folds() {
    let planes = || (vec![F128::one(); 8], vec![F128::zero(); 8]);
    let (a, b) = planes();
    let mut provider = StartedCpu::new(a, b, StartedFault::Absent);
    assert_eq!(provider.admit_initialized(8, 2), Ok(()));
    assert_eq!(provider.admit_initialized(4, 2), Err("state".to_string()));
    assert_eq!(provider.admit_initialized(8, 0), Err("state".to_string()));
    provider.advance(F128::one()).unwrap();
    assert_eq!(provider.admit_initialized(4, 1), Err("state".to_string()));
    let prefix = CpuPrefix::new();
    assert_eq!(prefix.admit_prefix(8, 2), Ok(()));
    for (rows, rounds) in [(8, 3), (8, 0), (6, 1), (0, 1)] {
        assert_eq!(
            prefix.admit_prefix(rows, rounds),
            Err("shape".to_string())
        );
    }
}

#[test]
fn borrowed_opening_direct_matches_original_wrapper_and_verifier() {
    let kernels = PcsKernels {
        commit,
        multi_proof,
        induce_initial,
        induce,
    };
    for (case, (batch, rate)) in [(2, 1), (3, 2), (4, 1)].into_iter().enumerate() {
        let witness = fixture(12, 0);
        let data = commit(&witness, 12 - batch, batch, rate);
        let mut cfg = config(batch, rate);
        cfg.fold_grinding_bits.clear();
        let claim = claim_at(&witness, case_point(case));
        let params = PcsParams {
            m: 12 + LOG_PACKING,
            log_inv_rate: rate,
            log_batch_size: batch,
        };
        let mut host_ch = MixTranscript::new("borrowed-direct");
        let combined = combine(&witness, &claim, &mut host_ch);
        let on_host = recursive_prover_with_basis_precomputed_round0(
            &cfg,
            witness.clone(),
            combined.b_combined,
            combined.target_combined,
            &data.codeword,
            &data.tree,
            combined.round0_prime,
            &kernels,
            &mut host_ch,
        );
        assert!(on_host.fold_grinding_nonces.is_empty());
        let mut borrowed_ch = MixTranscript::new("borrowed-direct");
        let combined = combine(&witness, &claim, &mut borrowed_ch);
        let borrowed = open_combined(
            witness,
            &data.codeword,
            &data.tree,
            &params,
            combined,
            &cfg,
            &kernels,
            &mut borrowed_ch,
        )
        .unwrap();
        assert_eq!(borrowed.ligerito, on_host);
        assert_eq!(borrowed_ch.sample_f128(), host_ch.sample_f128());
    }
}

#[test]
fn borrowed_opening_rejects_geometry_before_transcript() {
    let kernels = PcsKernels {
        commit,
        multi_proof,
        induce_initial,
        induce,
    };
    let witness = fixture(12, 0);
    let data = commit(&witness, 9, 3, 1);
    let params = PcsParams {
        m: 12 + LOG_PACKING,
        log_inv_rate: 1,
        log_batch_size: 3,
    };
    let cfg = config(3, 1);
    assert!(geometry_admitted(
        &params,
        &cfg,
        witness.len(),
        data.codeword.len(),
        data.tree.len()
    ));
    for case in 0..12 {
        let mut params = params;
        let mut config = cfg.clone();
        let mut w = witness.clone();
        let mut code = data.codeword.as_slice();
        let mut tree = data.tree.as_slice();
        match case {
            0 => params.m = LOG_PACKING - 1,
            1 => params.log_batch_size = usize::MAX,
            2 => params.log_inv_rate = usize::MAX,
            3 => params.m = usize::BITS as usize + LOG_PACKING,
            4 => {
                w.pop();
            }
            5 => code = &code[..code.len() - 1],
            6 => tree = &tree[..tree.len() - 1],
            7 => config.initial_k += 1,
            8 => config.log_inv_rates.clear(),
            9 => config.log_inv_rates[0] += 1,
            10 => config.initial_log_num_interleaved += 1,
            _ => config.initial_log_msg_cols += 1,
        }
        let mut ch = MixTranscript::new("invalid-borrowed");
        let mut untouched = MixTranscript::new("invalid-borrowed");
        let basis = vec![F128::one(); w.len()];
        let combined: CombinedClaims<u8> = CombinedClaims {
            ring_switches: Vec::new(),
            b_combined: basis,
            target_combined: F128::one(),
            round0_prime: (F128::one(), F128::one()),
        };
        let result = open_combined(
            w, code, tree, &params, combined, &config, &kernels, &mut ch,
        );
        assert!(matches!(result, Err(e) if e == "opening geometry"), "case {case}");
        assert_eq!(ch.sample_f128(), untouched.sample_f128(), "case {case}");
    }
}

#[test]
fn direct_claims_hold_the_value_at_their_point() {
    for log in [3usize, 12] {
        let w = values(1 << log);
        for sparse in [false, true] {
            let claim = direct(&w, log, sparse);
            assert_eq!(claim.value, compute_inner(&w, &build_eq(&claim.point)));
            let zeros = claim.eq_ind.iter().filter(|x| **x == F128::zero()).count();
            assert_eq!(zeros, if sparse { 3 << (log - 2) } else { 0 });
        }
    }
    assert_eq!(
        values(1)[0],
        F128::new(17u64.wrapping_mul(0x9e3779b97f4a7c15), !31)
    );
}

#[test]
fn logarithms_are_exact_or_rounded_up() {
    assert_eq!(exact_log2(1), Some(0));
    assert_eq!(exact_log2(4096), Some(12));
    assert_eq!(exact_log2(0), None);
    assert_eq!(exact_log2(12), None);
    assert_eq!(exact_log2(usize::MAX), None);
    let expected = [0, 0, 1, 2, 2, 3, 3, 3, 3, 4];
    for (n, k) in expected.into_iter().enumerate() {
        assert_eq!(ceil_log2(n), k);
    }
    assert_eq!(ceil_log2(usize::MAX), usize::BITS as usize);
}

#[test]
fn proofs_hold_what_the_transcript_was_told() {
    let kernels = PcsKernels {
        commit,
        multi_proof,
        induce_initial,
        induce,
    };
    let witness = fixture(6, 1);
    let mut cfg = config(2, 1);
    cfg.recursive_steps = 1;
    cfg.recursive_ks = vec![2];
    cfg.log_inv_rates = vec![1, 1];
    cfg.queries = vec![3, 2];
    cfg.grinding_bits = vec![5, 6];
    cfg.fold_grinding_bits = vec![0, 4];
    cfg.ood_samples = vec![0, 1];
    let data = commit(&witness, 4, 2, 1);
    let claim = claim_at(&witness, values(6));
    let mut ch = MixTranscript::new("told");
    let proof = prove_with_backend(
        &cfg,
        witness.clone(),
        claim.eq_ind.clone(),
        claim.value,
        &data.codeword,
        &data.tree,
        None,
        &kernels,
        &mut ch,
        &mut CpuPrefix::new(),
    )
    .unwrap();
    // The whole transcript replayed by hand.
    let mut t = MixTranscript::new("told");
    t.observe_label("flock-ligerito-basis-v0");
    t.observe_f128(claim.value);
    t.observe_bytes(&proof.initial_root);
    let (mut cpu, first) = SumcheckProver::new(witness, claim.eq_ind, claim.value);
    t.observe_f128(first.u_0);
    t.observe_f128(first.u_2);
    let mut lanes = Vec::new();
    for _ in 0..2 {
        let r = t.sample_f128();
        let msg = cpu.fold(r);
        t.observe_f128(msg.u_0);
        t.observe_f128(msg.u_2);
        lanes.push(r);
    }
    let level = commit(&cpu.f, 2, 2, 1);
    assert_eq!(proof.recursive_roots, vec![*level.tree.last().unwrap()]);
    t.observe_bytes(&proof.recursive_roots[0]);
    let z = t.sample_f128_vec(4);
    let (msg, y) = cpu.introduce_new_with_eval(build_eq(&z));
    assert_eq!(proof.ood_values, vec![y]);
    t.observe_f128(y);
    t.observe_f128(msg.u_0);
    t.observe_f128(msg.u_2);
    let beta = t.sample_f128();
    cpu.glue(beta);
    assert_eq!(t.grind_pow(5), proof.grinding_nonces[0]);
    let picks = t.sample_distinct_queries(32, 3);
    let alpha = t.sample_f128_vec(2);
    for (row, q) in proof.initial_proof.opened_rows.iter().zip(&picks) {
        assert_eq!(row[..], data.codeword[4 * q..4 * q + 4]);
    }
    assert_eq!(
        proof.initial_proof.merkle_proof,
        multi_proof(&data.tree, 32, &picks)
    );
    let (basis, sum) =
        induce_initial(4, 1, &proof.initial_proof.opened_rows, &lanes, &picks, &alpha);
    let msg = cpu.introduce_new(basis, sum);
    t.observe_f128(msg.u_0);
    t.observe_f128(msg.u_2);
    let beta = t.sample_f128();
    cpu.glue(beta);
    for (j, bits) in [4, 3].into_iter().enumerate() {
        assert_eq!(t.grind_pow(bits), proof.fold_grinding_nonces[j]);
        let r = t.sample_f128();
        let msg = cpu.fold(r);
        t.observe_f128(msg.u_0);
        t.observe_f128(msg.u_2);
    }
    assert_eq!(proof.final_proof.yr, cpu.f);
    for v in &proof.final_proof.yr {
        t.observe_f128(*v);
    }
    assert_eq!(t.grind_pow(6), proof.grinding_nonces[1]);
    let picks = t.sample_distinct_queries(8, 2);
    t.sample_f128_vec(1);
    t.sample_f128();
    for (row, q) in proof.final_proof.opened_rows.iter().zip(&picks) {
        assert_eq!(row[..], level.codeword[4 * q..4 * q + 4]);
    }
    assert_eq!(proof.sumcheck_transcript, cpu.transcript);
    assert!(proof.recursive_proofs.is_empty());
    assert_eq!(ch.sample_f128(), t.sample_f128());
}

/// The combination of one claim, as in the openings above.
struct OneClaim {
    claim: PackedDirectClaim,
}

impl ClaimCombiner<u8> for OneClaim {
    fn combine<C: Challenger>(&self, witness: &[F128], ch: &mut C) -> CombinedClaims<u8> {
        ch.observe_f128(self.claim.value);
        let gamma = ch.sample_f128();
        let claims = std::slice::from_ref(&self.claim);
        let mut combined = combine_direct_claims(witness, claims, &[gamma]);
        combined.ring_switches.push(7);
        combined
    }
}

/// A combination that must not be asked for.
struct Untouched;

impl ClaimCombiner<u8> for Untouched {
    fn combine<C: Challenger>(&self, _: &[F128], _: &mut C) -> CombinedClaims<u8> {
        panic!("combined before the geometry was tested")
    }
}

#[test]
fn batch_opening_is_combination_and_recursive_proof() {
    let kernels = PcsKernels {
        commit,
        multi_proof,
        induce_initial,
        induce,
    };
    for (case, (batch, rate)) in [(2, 1), (3, 2), (4, 1)].into_iter().enumerate() {
        let witness = fixture(12, 0);
        let data = commit(&witness, 12 - batch, batch, rate);
        let cfg = config(batch, rate);
        let params = PcsParams {
            m: 12 + LOG_PACKING,
            log_inv_rate: rate,
            log_batch_size: batch,
        };
        let claim = claim_at(&witness, case_point(case));
        let mut host_ch = MixTranscript::new("batch");
        let combined = combine(&witness, &claim, &mut host_ch);
        let on_host = recursive_prover_with_basis_precomputed_round0(
            &cfg,
            witness.clone(),
            combined.b_combined,
            combined.target_combined,
            &data.codeword,
            &data.tree,
            combined.round0_prime,
            &kernels,
            &mut host_ch,
        );
        let next = host_ch.sample_f128();
        for _ in 0..2 {
            let one = OneClaim {
                claim: claim_at(&witness, case_point(case)),
            };
            let mut ch = MixTranscript::new("batch");
            let opened = open_batch(
                witness.clone(),
                &data.codeword,
                &data.tree,
                &params,
                &one,
                &cfg,
                &kernels,
                &mut ch,
            )
            .unwrap();
            assert_eq!(opened.ring_switches, vec![7]);
            assert_eq!(opened.ligerito, on_host);
            assert_eq!(ch.sample_f128(), next);
            let mut resident_ch = MixTranscript::new("batch");
            let mut backend = CpuPrefix::new();
            let resident = open_batch_with_resident_prefix(
                witness.clone(),
                &data.codeword,
                &data.tree,
                &params,
                &one,
                &cfg,
                &kernels,
                &mut resident_ch,
                &mut backend,
            )
            .unwrap();
            assert_eq!(resident.ring_switches, vec![7]);
            assert_eq!(resident.ligerito, on_host);
            assert_eq!(backend.advances, batch);
            assert!(backend.a.is_empty() && backend.b.is_empty());
            assert_eq!(resident_ch.sample_f128(), next);
        }
    }
}

#[test]
fn direct_claims_draw_their_factors_together() {
    let kernels = PcsKernels {
        commit,
        multi_proof,
        induce_initial,
        induce,
    };
    let witness = fixture(12, 0);
    let data = commit(&witness, 9, 3, 1);
    let cfg = config(3, 1);
    let params = PcsParams {
        m: 12 + LOG_PACKING,
        log_inv_rate: 1,
        log_batch_size: 3,
    };
    let claims = || {
        vec![
            claim_at(&witness, case_point(2)),
            claim_at(&witness, case_point(1)),
        ]
    };
    let mut host_ch = MixTranscript::new("direct-batch");
    let gammas = host_ch.sample_f128_vec(2);
    let combined: CombinedClaims<u8> = combine_direct_claims(&witness, &claims(), &gammas);
    assert_eq!(
        combined.target_combined,
        compute_inner(&witness, &combined.b_combined)
    );
    let on_host = recursive_prover_with_basis_precomputed_round0(
        &cfg,
        witness.clone(),
        combined.b_combined,
        combined.target_combined,
        &data.codeword,
        &data.tree,
        combined.round0_prime,
        &kernels,
        &mut host_ch,
    );
    let mut ch = MixTranscript::new("direct-batch");
    let direct = DirectClaims { claims: claims() };
    let opened = open_batch::<_, u8, _, _, _, _, _>(
        witness.clone(),
        &data.codeword,
        &data.tree,
        &params,
        &direct,
        &cfg,
        &kernels,
        &mut ch,
    )
    .unwrap();
    assert!(opened.ring_switches.is_empty());
    assert_eq!(opened.ligerito, on_host);
    assert_eq!(ch.state, host_ch.state);
}

#[test]
fn batch_opening_tests_the_geometry_first() {
    let kernels = PcsKernels {
        commit,
        multi_proof,
        induce_initial,
        induce,
    };
    let witness = fixture(12, 0);
    let data = commit(&witness, 9, 3, 1);
    let cfg = config(3, 1);
    for case in 0..12 {
        let mut params = PcsParams {
            m: 12 + LOG_PACKING,
            log_inv_rate: 1,
            log_batch_size: 3,
        };
        let mut config = cfg.clone();
        let mut w = witness.clone();
        let mut code = data.codeword.as_slice();
        let mut tree = data.tree.as_slice();
        match case {
            0 => params.m = LOG_PACKING - 1,
            1 => params.log_batch_size = usize::MAX,
            2 => params.log_inv_rate = usize::MAX,
            3 => params.m = usize::BITS as usize + LOG_PACKING,
            4 => {
                w.pop();
            }
            5 => code = &code[..code.len() - 1],
            6 => tree = &tree[..tree.len() - 1],
            7 => config.initial_k += 1,
            8 => config.log_inv_rates.clear(),
            9 => config.log_inv_rates[0] += 1,
            10 => config.initial_log_num_interleaved += 1,
            _ => config.initial_log_msg_cols += 1,
        }
        let mut ch = MixTranscript::new("invalid-batch");
        let untouched = MixTranscript::new("invalid-batch");
        let mut backend = Fault {
            inner: CpuPrefix::new(),
            phase: 0,
            calls: [0; 4],
        };
        let result = open_batch_with_resident_prefix(
            w.clone(),
            code,
            tree,
            &params,
            &Untouched,
            &config,
            &kernels,
            &mut ch,
            &mut backend,
        );
        assert!(matches!(result, Err(e) if e == "opening geometry"), "case {case}");
        assert_eq!(backend.calls, [0; 4]);
        let result = open_batch(
            w, code, tree, &params, &Untouched, &config, &kernels, &mut ch,
        );
        assert!(matches!(result, Err(e) if e == "opening geometry"), "case {case}");
        assert_eq!(ch.state, untouched.state, "case {case}");
    }
    // Geometry that fits, and a provider or a number of folds that does not.
    for (batch, text) in [(3, "injected admission"), (0, "resident PCS prefix shape")] {
        let data = commit(&witness, 12 - batch, batch, 1);
        let params = PcsParams {
            m: 12 + LOG_PACKING,
            log_inv_rate: 1,
            log_batch_size: batch,
        };
        let mut ch = MixTranscript::new("invalid-batch");
        let mut backend = Fault {
            inner: CpuPrefix::new(),
            phase: 0,
            calls: [0; 4],
        };
        let result = open_batch_with_resident_prefix(
            witness.clone(),
            &data.codeword,
            &data.tree,
            &params,
            &Untouched,
            &config(batch, 1),
            &kernels,
            &mut ch,
            &mut backend,
        );
        assert!(matches!(result, Err(e) if e == text));
        assert_eq!(backend.calls, [0; 4]);
        assert_eq!(ch.state, MixTranscript::new("invalid-batch").state);
    }
}
