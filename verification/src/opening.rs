//! Batched openings: the statement combined into one basis, and the recursive proof
//! made by the host alone.
use crate::field::F128;
use crate::host::{complete, entry_or_zero, first_oracle, Host};
use crate::ligerito::{
    after_folds, challenges, completed, config_fits, entry, exact_log2, is_power, kernels_ready,
    log2_of, Digest, FoldStep, LastRun, LigeritoProof, LigeroWitness, PcsKernels, PhaseRun,
    ProverConfig, Session,
};
use crate::multilinear::{
    law_sum_feels_every_term, lemma_sum_congruent, lemma_sum_zero, sum_upto,
};
use crate::resident_prefix::send_statement;
use crate::sumcheck::{
    combine, compute_message, inner, inner_terms, law_glue_combines_targets, message_of,
    SumcheckMessage, SumcheckProver, SumcheckState,
};
use crate::transcript::{Challenger, Event};
use vstd::arithmetic::power2::pow2;
use vstd::prelude::*;

verus! {

/// The logarithm of the number of bits packed into an element.
pub const LOG_PACKING: usize = 7;

/// The shape of a commitment.
#[derive(Clone, Copy, Debug, PartialEq, Eq, Structural)]
pub struct PcsParams {
    /// The logarithm of the number of committed bits.
    pub m: usize,
    /// The logarithm of the inverse code rate.
    pub log_inv_rate: usize,
    /// The logarithm of the number of interleaved rows.
    pub log_batch_size: usize,
}

/// A claim that the witness has `value` at `point`, with the table of the point.
pub struct PackedDirectClaim {
    pub point: Vec<F128>,
    pub value: F128,
    pub eq_ind: Vec<F128>,
}

/// The claims of a batch combined: a basis, the target of its inner product with the
/// witness, the first round message, and what the combination proved on the way.
pub struct CombinedClaims<S> {
    pub ring_switches: Vec<S>,
    pub b_combined: Vec<F128>,
    pub target_combined: F128,
    pub round0_prime: (F128, F128),
}

/// The proof of a batch of openings.
pub struct BatchOpeningProofLigerito<S> {
    pub ring_switches: Vec<S>,
    pub ligerito: LigeritoProof,
}

/// The tables of the first `k` claims combined, each with its own factor.
pub open spec fn combined_tables(
    len: nat,
    claims: Seq<PackedDirectClaim>,
    gammas: Seq<F128>,
    k: int,
) -> Seq<F128>
    decreases k,
{
    if k <= 0 {
        Seq::new(len, |i: int| F128::zero())
    } else {
        combine(combined_tables(len, claims, gammas, k - 1), claims[k - 1].eq_ind@, gammas[k - 1])
    }
}

/// The values of the claims, each with its factor.
pub open spec fn value_terms(
    claims: Seq<PackedDirectClaim>,
    gammas: Seq<F128>,
) -> spec_fn(int) -> F128 {
    |i: int| gammas[i] * claims[i].value
}

/// True claims stay true when they are combined: the target is the inner product of
/// the witness and the combined basis.
pub proof fn law_combined_claims_are_true(
    w: Seq<F128>,
    claims: Seq<PackedDirectClaim>,
    gammas: Seq<F128>,
    k: int,
)
    requires
        0 <= k <= claims.len(),
        claims.len() == gammas.len(),
        forall|i: int|
            0 <= i < claims.len() ==> (#[trigger] claims[i]).eq_ind@.len() == w.len()
                && claims[i].value == inner(w, claims[i].eq_ind@),
    ensures
        combined_tables(w.len(), claims, gammas, k).len() == w.len(),
        inner(w, combined_tables(w.len(), claims, gammas, k)) == sum_upto(
            value_terms(claims, gammas),
            k,
        ),
    decreases k,
{
    if k == 0 {
        let zeros = combined_tables(w.len(), claims, gammas, 0);
        let terms = inner_terms(w, zeros);
        assert forall|i: int| 0 <= i < w.len() implies #[trigger] terms(i) == F128::zero() by {
            crate::field::law_mul_units(w[i]);
        }
        lemma_sum_zero(terms, w.len() as int);
    } else {
        law_combined_claims_are_true(w, claims, gammas, k - 1);
        law_glue_combines_targets(
            w,
            combined_tables(w.len(), claims, gammas, k - 1),
            claims[k - 1].eq_ind@,
            gammas[k - 1],
        );
    }
}

/// The combined basis is a plain sum: entry `x` is the sum over all claims of the factor of
/// the claim times entry `x` of its table.
pub proof fn law_combined_basis_is_a_sum(
    len: nat,
    claims: Seq<PackedDirectClaim>,
    gammas: Seq<F128>,
    k: int,
    x: int,
)
    requires
        0 <= k <= claims.len(),
        claims.len() == gammas.len(),
    ensures
        combined_tables(len, claims, gammas, k).len() == len,
        0 <= x < len ==> combined_tables(len, claims, gammas, k)[x] == sum_upto(
            |i: int| gammas[i] * claims[i].eq_ind@[x],
            k,
        ),
    decreases k,
{
    if k > 0 {
        law_combined_basis_is_a_sum(len, claims, gammas, k - 1, x);
    }
}

/// The combined target is a plain sum: over all claims, the factor times the value.
pub proof fn law_combined_target_is_a_sum(
    claims: Seq<PackedDirectClaim>,
    gammas: Seq<F128>,
    k: int,
)
    ensures
        sum_upto(value_terms(claims, gammas), k) == sum_upto(
            |i: int| gammas[i] * claims[i].value,
            k,
        ),
{
    lemma_sum_congruent(
        value_terms(claims, gammas),
        |i: int| gammas[i] * claims[i].value,
        k,
    );
}

/// A combination feels every claim: where two batches differ in one claim only, the targets
/// differ by the factor of that claim times the difference of its values, and the bases by
/// the factor times the difference of its tables.
pub proof fn law_combination_feels_every_claim(
    len: nat,
    claims: Seq<PackedDirectClaim>,
    others: Seq<PackedDirectClaim>,
    gammas: Seq<F128>,
    j: int,
    x: int,
)
    requires
        claims.len() == gammas.len(),
        others.len() == gammas.len(),
        0 <= j < claims.len(),
        forall|i: int| 0 <= i < claims.len() && i != j ==> #[trigger] claims[i] == others[i],
        0 <= x < len,
    ensures
        sum_upto(value_terms(claims, gammas), claims.len() as int) + sum_upto(
            value_terms(others, gammas),
            claims.len() as int,
        ) == gammas[j] * (claims[j].value + others[j].value),
        combined_tables(len, claims, gammas, claims.len() as int)[x] + combined_tables(
            len,
            others,
            gammas,
            claims.len() as int,
        )[x] == gammas[j] * (claims[j].eq_ind@[x] + others[j].eq_ind@[x]),
{
    let n = claims.len() as int;
    law_combined_target_is_a_sum(claims, gammas, n);
    law_combined_target_is_a_sum(others, gammas, n);
    law_combined_basis_is_a_sum(len, claims, gammas, n, x);
    law_combined_basis_is_a_sum(len, others, gammas, n, x);
    let (v, w) = (|i: int| gammas[i] * claims[i].value, |i: int| gammas[i] * others[i].value);
    let (s, t) = (
        |i: int| gammas[i] * claims[i].eq_ind@[x],
        |i: int| gammas[i] * others[i].eq_ind@[x],
    );
    assert forall|i: int| 0 <= i < n && i != j implies #[trigger] v(i) == w(i) by {
        assert(claims[i] == others[i]);
    }
    assert forall|i: int| 0 <= i < n && i != j implies #[trigger] s(i) == t(i) by {
        assert(claims[i] == others[i]);
    }
    law_sum_feels_every_term(v, w, n, j);
    law_sum_feels_every_term(s, t, n, j);
    crate::field::law_mul_distributes(gammas[j], claims[j].value, others[j].value);
    crate::field::law_mul_distributes(gammas[j], claims[j].eq_ind@[x], others[j].eq_ind@[x]);
}

/// Combines claims about the witness at points: one basis, one target, and the first
/// round message.
pub fn combine_direct_claims<S>(
    w: &[F128],
    claims: &[PackedDirectClaim],
    gammas: &[F128],
) -> (combined: CombinedClaims<S>)
    requires
        claims@.len() == gammas@.len(),
        forall|i: int|
            0 <= i < claims@.len() ==> (#[trigger] claims@[i]).eq_ind@.len() == w@.len(),
    ensures
        combined.ring_switches@ == Seq::<S>::empty(),
        combined.b_combined@ == combined_tables(w@.len(), claims@, gammas@, claims@.len() as int),
        combined.b_combined@.len() == w@.len(),
        forall|x: int|
            0 <= x < w@.len() ==> #[trigger] combined.b_combined@[x] == sum_upto(
                |i: int| gammas@[i] * claims@[i].eq_ind@[x],
                claims@.len() as int,
            ),
        combined.target_combined == sum_upto(
            value_terms(claims@, gammas@),
            claims@.len() as int,
        ),
        combined.target_combined == sum_upto(
            |i: int| gammas@[i] * claims@[i].value,
            claims@.len() as int,
        ),
        combined.round0_prime == ({
            let message = message_of(w@, combined.b_combined@);
            (message.u_0, message.u_2)
        }),
{
    let len = w.len();
    let mut basis: Vec<F128> = vec![F128::zero(); len];
    let mut target = F128::zero();
    assert(basis@ =~= combined_tables(w@.len(), claims@, gammas@, 0));
    let mut i: usize = 0;
    while i < claims.len()
        invariant
            i <= claims@.len(),
            claims@.len() == gammas@.len(),
            len == w@.len(),
            basis@.len() == len,
            basis@ == combined_tables(w@.len(), claims@, gammas@, i as int),
            target == sum_upto(value_terms(claims@, gammas@), i as int),
            forall|j: int|
                0 <= j < claims@.len() ==> (#[trigger] claims@[j]).eq_ind@.len() == w@.len(),
        decreases claims@.len() - i,
    {
        let ghost before = basis@;
        let gamma = gammas[i];
        let claim = &claims[i];
        let mut x: usize = 0;
        while x < len
            invariant
                x <= len,
                len == before.len(),
                basis@.len() == len,
                claim.eq_ind@.len() == len,
                forall|j: int|
                    0 <= j < x ==> basis@[j] == before[j] + gamma * claim.eq_ind@[j],
                forall|j: int| x <= j < len ==> basis@[j] == before[j],
            decreases len - x,
        {
            let value = basis[x] + gamma * claim.eq_ind[x];
            basis.set(x, value);
            x = x + 1;
        }
        assert(basis@ =~= combine(before, claim.eq_ind@, gamma));
        target = target + gamma * claim.value;
        i = i + 1;
    }
    proof {
        let n = claims@.len() as int;
        law_combined_target_is_a_sum(claims@, gammas@, n);
        assert forall|x: int| 0 <= x < w@.len() implies #[trigger] basis@[x] == sum_upto(
            |i: int| gammas@[i] * claims@[i].eq_ind@[x],
            n,
        ) by {
            law_combined_basis_is_a_sum(w@.len(), claims@, gammas@, n, x);
        }
    }
    let message = compute_message(w, basis.as_slice());
    CombinedClaims {
        ring_switches: Vec::new(),
        b_combined: basis,
        target_combined: target,
        round0_prime: (message.u_0, message.u_2),
    }
}

/// The session in which the host starts to fold.
pub open spec fn host_start(
    history: Seq<Event>,
    f: Seq<F128>,
    basis: Seq<F128>,
    target: F128,
    root: Digest,
    first: SumcheckMessage,
) -> Session {
    Session::start(history, target, root, SumcheckState::start(f, basis, target, first))
}

/// A proof that the host made alone, from its first message on.
pub open spec fn host_proved<M, P, A, D>(
    kernels: PcsKernels<M, P, A, D>,
    config: ProverConfig,
    log_n: int,
    start: Session,
    codeword: Seq<F128>,
    tree: Seq<Digest>,
    steps: Seq<FoldStep>,
    phases: Seq<PhaseRun>,
    last: LastRun,
    history: Seq<Event>,
    proof: LigeritoProof,
) -> bool where
    M: Fn(&[F128], usize, usize, usize) -> LigeroWitness,
    P: Fn(&[Digest], usize, &[usize]) -> Vec<Digest>,
    A: Fn(usize, usize, &[Vec<F128>], &[F128], &[usize], &[F128]) -> (Vec<F128>, F128),
    D: Fn(usize, &[Vec<F128>], &[F128], &[usize], &[F128]) -> (Vec<F128>, F128),
 {
    &&& steps.len() == config.initial_k
    &&& completed(
        kernels,
        config,
        log_n,
        after_folds(start, entry(config.fold_grinding_bits@, 0) as u32, steps),
        first_oracle(config, log_n, codeword, tree),
        challenges(steps),
        phases,
        last,
        history,
        proof,
    )
}

/// Some folds and some phases gave the proof.
pub open spec fn host_completed<M, P, A, D>(
    kernels: PcsKernels<M, P, A, D>,
    config: ProverConfig,
    log_n: int,
    start: Session,
    codeword: Seq<F128>,
    tree: Seq<Digest>,
    history: Seq<Event>,
    proof: LigeritoProof,
) -> bool where
    M: Fn(&[F128], usize, usize, usize) -> LigeroWitness,
    P: Fn(&[Digest], usize, &[usize]) -> Vec<Digest>,
    A: Fn(usize, usize, &[Vec<F128>], &[F128], &[usize], &[F128]) -> (Vec<F128>, F128),
    D: Fn(usize, &[Vec<F128>], &[F128], &[usize], &[F128]) -> (Vec<F128>, F128),
 {
    exists|steps: Seq<FoldStep>, phases: Seq<PhaseRun>, last: LastRun| #[trigger]
        host_proved(
            kernels,
            config,
            log_n,
            start,
            codeword,
            tree,
            steps,
            phases,
            last,
            history,
            proof,
        )
}

/// Prove an opening on the host alone, from a first round message computed
/// elsewhere.
#[allow(clippy::too_many_arguments)]
pub fn recursive_prover_with_basis_precomputed_round0<C, M, P, A, D>(
    config: &ProverConfig,
    packed_witness: Vec<F128>,
    b_initial: Vec<F128>,
    target: F128,
    l0_codeword: &[F128],
    l0_tree: &[Digest],
    round0: (F128, F128),
    kernels: &PcsKernels<M, P, A, D>,
    challenger: &mut C,
) -> (proof: LigeritoProof) where
    C: Challenger,
    M: Fn(&[F128], usize, usize, usize) -> LigeroWitness,
    P: Fn(&[Digest], usize, &[usize]) -> Vec<Digest>,
    A: Fn(usize, usize, &[Vec<F128>], &[F128], &[usize], &[F128]) -> (Vec<F128>, F128),
    D: Fn(usize, &[Vec<F128>], &[F128], &[usize], &[F128]) -> (Vec<F128>, F128),

    requires
        is_power(packed_witness@.len()),
        b_initial@.len() == packed_witness@.len(),
        config.initial_k <= log2_of(packed_witness@.len()),
        config_fits(
            *config,
            log2_of(packed_witness@.len()) as int,
            l0_codeword@.len(),
            l0_tree@.len(),
        ),
        kernels_ready(*kernels),
    ensures
        old(challenger).consistent() ==> final(challenger).consistent(),
        host_completed(
            *kernels,
            *config,
            log2_of(packed_witness@.len()) as int,
            host_start(
                old(challenger).history(),
                packed_witness@,
                b_initial@,
                target,
                l0_tree@.last(),
                (SumcheckMessage { u_0: round0.0, u_2: round0.1 }),
            ),
            l0_codeword@,
            l0_tree@,
            final(challenger).history(),
            proof,
        ),
{
    let ghost h0 = challenger.history();
    let ghost n = log2_of(packed_witness@.len());
    let log_n = match exact_log2(packed_witness.len()) {
        Some(log_n) => log_n,
        None => 0,
    };
    let k = config.initial_k;
    proof {
        vstd::arithmetic::power2::lemma_pow2_pos((n - k + config.log_inv_rates@[0]) as nat);
    }
    let initial_root = send_statement(challenger, target, l0_tree);
    let first = SumcheckMessage { u_0: round0.0, u_2: round0.1 };
    let ghost start = host_start(
        h0,
        packed_witness@,
        b_initial@,
        target,
        initial_root,
        first,
    );
    let (prover, _) = SumcheckProver::new_with_first_msg(packed_witness, b_initial, target, first);
    let mut host = Host::new(prover);
    Host::send(challenger, first);
    assert(host.session(challenger.history()) =~= start);
    let bits = entry_or_zero(&config.fold_grinding_bits, 0) as u32;
    let (rs, steps) = host.fold_planes(challenger, bits, k, Ghost(n));
    let (proof, phases, last) = complete(
        host,
        challenger,
        config,
        kernels,
        log_n,
        l0_codeword,
        l0_tree,
        rs,
    );
    assert(host_proved(
        *kernels,
        *config,
        n as int,
        start,
        l0_codeword@,
        l0_tree@,
        steps@,
        phases@,
        last@,
        challenger.history(),
        proof,
    ));
    proof
}

/// A witness, a codeword, a tree and a configuration that belong to the commitment.
pub open spec fn geometry_fits(
    params: PcsParams,
    config: ProverConfig,
    witness_len: nat,
    codeword_len: nat,
    tree_len: nat,
) -> bool {
    let log_n = params.m - LOG_PACKING;
    let columns = log_n - params.log_batch_size;
    &&& columns >= 0
    &&& witness_len == pow2(log_n as nat)
    &&& codeword_len == pow2((log_n + params.log_inv_rate) as nat)
    &&& tree_len == 2 * pow2((columns + params.log_inv_rate) as nat) - 1
    &&& config.initial_k == params.log_batch_size
    &&& config.initial_log_num_interleaved == params.log_batch_size
    &&& config.initial_log_msg_cols == columns
    &&& config.log_inv_rates@.len() > 0
    &&& config.log_inv_rates@[0] == params.log_inv_rate
}

/// Whether `n` is two to the power `k`.
fn is_power_of(n: usize, k: usize) -> (yes: bool)
    ensures
        yes == (n == pow2(k as nat)),
{
    proof {
        if n == pow2(k as nat) {
            crate::ligerito::law_log2_of_power(k as nat);
        }
    }
    match exact_log2(n) {
        Some(v) => v == k,
        None => false,
    }
}

/// Decides `geometry_fits`, without any arithmetic that could overflow.
pub fn geometry_admitted(
    params: &PcsParams,
    config: &ProverConfig,
    witness_len: usize,
    codeword_len: usize,
    tree_len: usize,
) -> (yes: bool)
    ensures
        yes == geometry_fits(
            *params,
            *config,
            witness_len as nat,
            codeword_len as nat,
            tree_len as nat,
        ),
{
    if params.m < LOG_PACKING || params.m - LOG_PACKING < params.log_batch_size {
        return false;
    }
    let log_n = params.m - LOG_PACKING;
    let columns = log_n - params.log_batch_size;
    if config.initial_k != params.log_batch_size || config.initial_log_num_interleaved
        != params.log_batch_size || config.initial_log_msg_cols != columns
        || config.log_inv_rates.len() == 0 || config.log_inv_rates[0] != params.log_inv_rate {
        return false;
    }
    if !is_power_of(witness_len, log_n) {
        return false;
    }
    proof {
        crate::host::lemma_below_power((log_n + params.log_inv_rate) as nat);
    }
    if params.log_inv_rate > usize::MAX - log_n {
        return false;
    }
    if !is_power_of(codeword_len, log_n + params.log_inv_rate) {
        return false;
    }
    let half = tree_len / 2;
    proof {
        vstd::arithmetic::power2::lemma_pow2_pos((columns + params.log_inv_rate) as nat);
    }
    tree_len % 2 == 1 && half < usize::MAX && is_power_of(half + 1, columns + params.log_inv_rate)
}

/// The proof of one combined claim: the recursive proof of its basis and target, with
/// what the combination proved.
pub open spec fn opened_combination<S, M, P, A, D>(
    kernels: PcsKernels<M, P, A, D>,
    config: ProverConfig,
    log_n: int,
    witness: Seq<F128>,
    codeword: Seq<F128>,
    tree: Seq<Digest>,
    combined: CombinedClaims<S>,
    middle: Seq<Event>,
    history: Seq<Event>,
    proof: BatchOpeningProofLigerito<S>,
) -> bool where
    M: Fn(&[F128], usize, usize, usize) -> LigeroWitness,
    P: Fn(&[Digest], usize, &[usize]) -> Vec<Digest>,
    A: Fn(usize, usize, &[Vec<F128>], &[F128], &[usize], &[F128]) -> (Vec<F128>, F128),
    D: Fn(usize, &[Vec<F128>], &[F128], &[usize], &[F128]) -> (Vec<F128>, F128),
 {
    &&& proof.ring_switches == combined.ring_switches
    &&& host_completed(
        kernels,
        config,
        log_n,
        host_start(
            middle,
            witness,
            combined.b_combined@,
            combined.target_combined,
            tree.last(),
            (SumcheckMessage { u_0: combined.round0_prime.0, u_2: combined.round0_prime.1 }),
        ),
        codeword,
        tree,
        history,
        proof.ligerito,
    )
}

/// Open a batch of combined claims against a commitment whose codeword and tree are
/// borrowed. Whatever does not belong to the commitment is refused before the
/// transcript is touched.
#[allow(clippy::too_many_arguments)]
pub fn open_combined<C, S, M, P, A, D>(
    packed_witness: Vec<F128>,
    codeword: &[F128],
    tree: &[Digest],
    params: &PcsParams,
    combined: CombinedClaims<S>,
    config: &ProverConfig,
    kernels: &PcsKernels<M, P, A, D>,
    challenger: &mut C,
) -> (res: Result<BatchOpeningProofLigerito<S>, String>) where
    C: Challenger,
    M: Fn(&[F128], usize, usize, usize) -> LigeroWitness,
    P: Fn(&[Digest], usize, &[usize]) -> Vec<Digest>,
    A: Fn(usize, usize, &[Vec<F128>], &[F128], &[usize], &[F128]) -> (Vec<F128>, F128),
    D: Fn(usize, &[Vec<F128>], &[F128], &[usize], &[F128]) -> (Vec<F128>, F128),

    requires
        combined.b_combined@.len() == packed_witness@.len(),
        geometry_fits(*params, *config, packed_witness@.len(), codeword@.len(), tree@.len()) ==> {
            &&& config_fits(*config, params.m - LOG_PACKING, codeword@.len(), tree@.len())
            &&& kernels_ready(*kernels)
        },
    ensures
        old(challenger).consistent() ==> final(challenger).consistent(),
        if geometry_fits(*params, *config, packed_witness@.len(), codeword@.len(), tree@.len()) {
            res matches Ok(proof) && opened_combination(
                *kernels,
                *config,
                params.m - LOG_PACKING,
                packed_witness@,
                codeword@,
                tree@,
                combined,
                old(challenger).history(),
                final(challenger).history(),
                proof,
            )
        } else {
            &&& res matches Err(e) && e@ == "opening geometry"@
            &&& *final(challenger) == *old(challenger)
        },
{
    if !geometry_admitted(params, config, packed_witness.len(), codeword.len(), tree.len()) {
        return Err("opening geometry".to_string());
    }
    proof {
        crate::ligerito::law_log2_of_power((params.m - LOG_PACKING) as nat);
    }
    let ligerito = recursive_prover_with_basis_precomputed_round0(
        config,
        packed_witness,
        combined.b_combined,
        combined.target_combined,
        codeword,
        tree,
        combined.round0_prime,
        kernels,
        challenger,
    );
    Ok(BatchOpeningProofLigerito { ring_switches: combined.ring_switches, ligerito })
}

} // verus!
