use flock_core::batch::{open_batch, open_batch_with_resident_prefix, DirectClaims};
use flock_core::cpu_prefix::CpuPrefix;
use flock_core::field::F128;
use flock_core::ligerito::{
    ceil_log2, Digest, LigeritoProof, LigeroWitness, PcsKernels, ProverConfig,
};
use flock_core::mix_transcript::MixTranscript;
use flock_core::multilinear::build_eq;
use flock_core::opening::{PcsParams, LOG_PACKING};
use flock_core::samples::{claim_at, fixture, values};
use flock_core::sumcheck::{compute_inner, SumcheckMessage};
use flock_core::transcript::Challenger;

// A repetition code: position `q` holds column `q` modulo the number of columns. What the
// kernels induce from opened rows is true of the committed plane.

fn commit(f: &[F128], columns: usize, interleaved: usize, rate: usize) -> LigeroWitness {
    let block_len = 1usize << (columns + rate);
    let num_interleaved = 1usize << interleaved;
    let codeword = (0..block_len * num_interleaved)
        .map(|i| f[i % f.len()])
        .collect::<Vec<F128>>();
    let tree = (0..2 * block_len - 1)
        .map(|i| {
            let mut node = [0u8; 32];
            let value = codeword[i % codeword.len()].bits ^ i as u128;
            node[..16].copy_from_slice(&value.to_le_bytes());
            node
        })
        .collect();
    LigeroWitness {
        codeword,
        tree,
        block_len,
        num_interleaved,
    }
}

fn multi_proof(tree: &[Digest], leaves: usize, picks: &[usize]) -> Vec<Digest> {
    picks.iter().map(|q| tree[(q ^ 1) % leaves]).collect()
}

fn induce(
    n: usize,
    rows: &[Vec<F128>],
    lanes: &[F128],
    picks: &[usize],
    alpha: &[F128],
) -> (Vec<F128>, F128) {
    let lane_weights = build_eq(lanes);
    let weights = build_eq(alpha);
    let mut basis = vec![F128::zero(); 1 << n];
    let mut sum = F128::zero();
    for (i, q) in picks.iter().enumerate() {
        let column = q % basis.len();
        basis[column] = basis[column] + weights[i];
        sum = sum + weights[i] * compute_inner(&rows[i], &lane_weights);
    }
    (basis, sum)
}

fn induce_initial(
    n: usize,
    _rate: usize,
    rows: &[Vec<F128>],
    lanes: &[F128],
    picks: &[usize],
    alpha: &[F128],
) -> (Vec<F128>, F128) {
    induce(n, rows, lanes, picks, alpha)
}

fn config(batch: usize, rate: usize) -> ProverConfig {
    ProverConfig {
        initial_k: batch,
        recursive_steps: 2,
        recursive_ks: vec![3, 2],
        log_inv_rates: vec![rate, 1, 2],
        queries: vec![9, 6, 5],
        grinding_bits: vec![4, 3, 2],
        fold_grinding_bits: vec![2, 1],
        ood_samples: vec![0, 1, 2],
        initial_log_msg_cols: 12 - batch,
        initial_log_num_interleaved: batch,
    }
}

/// A reader of a proof: it has the claim, the basis and the proof, and no witness.
struct Reading<'a> {
    proof: &'a LigeritoProof,
    t: &'a mut MixTranscript,
    claim: F128,
    message: SumcheckMessage,
    basis: Vec<F128>,
    messages: usize,
    values: usize,
    fold_nonces: usize,
}

impl Reading<'_> {
    fn next_message(&mut self) -> SumcheckMessage {
        let message = self.proof.sumcheck_transcript[self.messages];
        self.messages += 1;
        self.t.observe_f128(message.u_0);
        self.t.observe_f128(message.u_2);
        message
    }

    fn fold(&mut self, bits: usize) -> F128 {
        if bits > 0 {
            let nonce = self.t.grind_pow(bits as u32);
            assert_eq!(nonce, self.proof.fold_grinding_nonces[self.fold_nonces]);
            self.fold_nonces += 1;
        }
        let r = self.t.sample_f128();
        let m = self.message;
        // The quadratic with `u_0` at zero, the claim as sum of its values at zero and
        // one, and the leading coefficient `u_2`.
        self.claim = m.u_0 + r * ((self.claim + m.u_2) + r * m.u_2);
        self.basis = self
            .basis
            .chunks_exact(2)
            .map(|p| p[0] + r * (p[0] + p[1]))
            .collect();
        self.message = self.next_message();
        r
    }

    fn glue(&mut self, value: F128, intro: SumcheckMessage, table: &[F128]) {
        let beta = self.t.sample_f128();
        self.claim = self.claim + beta * value;
        self.message.u_0 = self.message.u_0 + beta * intro.u_0;
        self.message.u_2 = self.message.u_2 + beta * intro.u_2;
        for (b, x) in self.basis.iter_mut().zip(table) {
            *b = *b + beta * *x;
        }
    }
}

fn entry(list: &[usize], p: usize) -> usize {
    list.get(p).copied().unwrap_or(0)
}

/// Follows a proof to its end, and says whether the plane in the clear has the inner
/// product that is claimed.
fn accepts(
    cfg: &ProverConfig,
    log_n: usize,
    proof: &LigeritoProof,
    basis: Vec<F128>,
    target: F128,
    t: &mut MixTranscript,
) -> bool {
    t.observe_label("flock-ligerito-basis-v0");
    t.observe_f128(target);
    t.observe_bytes(&proof.initial_root);
    let mut at = Reading {
        proof,
        t,
        claim: target,
        message: proof.sumcheck_transcript[0],
        basis,
        messages: 0,
        values: 0,
        fold_nonces: 0,
    };
    at.message = at.next_message();
    let mut lanes: Vec<F128> = (0..cfg.initial_k)
        .map(|j| at.fold(entry(&cfg.fold_grinding_bits, 0).saturating_sub(j)))
        .collect();
    let mut n = log_n - cfg.initial_k;
    let mut columns = n;
    for p in 0..cfg.recursive_steps {
        at.t.observe_bytes(&proof.recursive_roots[p]);
        for _ in 0..entry(&cfg.ood_samples, p + 1) {
            let z = at.t.sample_f128_vec(n);
            let value = proof.ood_values[at.values];
            at.values += 1;
            at.t.observe_f128(value);
            let intro = at.next_message();
            at.glue(value, intro, &build_eq(&z));
        }
        let nonce = at.t.grind_pow(cfg.grinding_bits[p] as u32);
        assert_eq!(nonce, proof.grinding_nonces[p]);
        let block_len = 1 << (columns + cfg.log_inv_rates[p]);
        let picks = at.t.sample_distinct_queries(block_len, cfg.queries[p]);
        let alpha = at.t.sample_f128_vec(ceil_log2(cfg.queries[p]));
        let rows = if p == 0 {
            &proof.initial_proof.opened_rows
        } else {
            &proof.recursive_proofs[p - 1].opened_rows
        };
        let (table, sum) = induce(n, rows, &lanes, &picks, &alpha);
        let intro = at.next_message();
        at.glue(sum, intro, &table);
        let bits = entry(&cfg.fold_grinding_bits, p + 1);
        lanes = (0..cfg.recursive_ks[p])
            .map(|j| at.fold(bits.saturating_sub(j)))
            .collect();
        n -= cfg.recursive_ks[p];
        columns = n;
    }
    for x in &proof.final_proof.yr {
        at.t.observe_f128(*x);
    }
    let r = cfg.recursive_steps;
    at.t.grind_pow(cfg.grinding_bits[r] as u32);
    at.t.sample_distinct_queries(1 << (columns + cfg.log_inv_rates[r]), cfg.queries[r]);
    at.t.sample_f128_vec(ceil_log2(cfg.queries[r]));
    at.t.sample_f128();
    at.messages == proof.sumcheck_transcript.len()
        && at.values == proof.ood_values.len()
        && at.fold_nonces == proof.fold_grinding_nonces.len()
        && at.claim == compute_inner(&proof.final_proof.yr, &at.basis)
}

#[test]
fn a_reader_accepts_an_opening_of_true_claims_and_no_other() {
    let kernels = PcsKernels {
        commit,
        multi_proof,
        induce_initial,
        induce,
    };
    for (batch, rate) in [(2, 1), (3, 2), (4, 1)] {
        let witness = fixture(12, 0);
        let data = commit(&witness, 12 - batch, batch, rate);
        let cfg = config(batch, rate);
        let params = PcsParams {
            m: 12 + LOG_PACKING,
            log_inv_rate: rate,
            log_batch_size: batch,
        };
        for lie in [F128::zero(), F128::new(1, 0)] {
            let claims = || {
                let mut list = vec![
                    claim_at(&witness, values(12)),
                    claim_at(&witness, vec![F128::new(3, 5); 12]),
                ];
                list[1].value = list[1].value + lie;
                list
            };
            let mut ch = MixTranscript::new("reader");
            let opened = open_batch::<_, u8, _, _, _, _, _>(
                witness.clone(),
                &data.codeword,
                &data.tree,
                &params,
                &DirectClaims { claims: claims() },
                &cfg,
                &kernels,
                &mut ch,
            )
            .unwrap();
            let mut resident_ch = MixTranscript::new("reader");
            let resident = open_batch_with_resident_prefix::<_, u8, _, _, _, _, _, _>(
                witness.clone(),
                &data.codeword,
                &data.tree,
                &params,
                &DirectClaims { claims: claims() },
                &cfg,
                &kernels,
                &mut resident_ch,
                &mut CpuPrefix::new(),
            )
            .unwrap();
            assert_eq!(resident.ligerito, opened.ligerito);
            let mut t = MixTranscript::new("reader");
            let gammas = t.sample_f128_vec(2);
            let mut basis = vec![F128::zero(); witness.len()];
            let mut target = F128::zero();
            for (claim, gamma) in claims().iter().zip(&gammas) {
                for (b, x) in basis.iter_mut().zip(build_eq(&claim.point)) {
                    *b = *b + *gamma * x;
                }
                target = target + *gamma * claim.value;
            }
            let accepted = accepts(&cfg, 12, &opened.ligerito, basis, target, &mut t);
            assert_eq!(accepted, lie == F128::zero());
            assert_eq!(t.state, ch.state);
        }
    }
}
