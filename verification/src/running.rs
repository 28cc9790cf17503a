//! What a reader of the transcript knows of the running sumcheck.
//!
//! Every step of a session changes the two planes, and the inner product that is
//! claimed of them. The claim and the current round message can be followed from
//! the transcript alone, and they stay true of the planes.
use crate::field::F128;
use crate::ligerito::{
    after_folds, after_phase, after_phases, after_samples, completed, config_fits, entry, eq_table,
    kernels_ready, opened_oracle, phase_fits, phases_answered, plane_log, Digest, FoldStep, LastRun,
    LigeritoProof, LigeroWitness, OodStep, Oracle, PcsKernels, PhaseRun, ProverConfig, Session,
};
use crate::multilinear::{lemma_sum_add, lemma_sum_scale};
use crate::rounds::sum_products;
use crate::sumcheck::{
    combine, even_products, inner, law_glue_combines_targets, law_round_reduces_target, message_of,
    quadratic_at, SumcheckMessage, SumcheckState,
};
use crate::transcript::Event;
use vstd::arithmetic::power2::{lemma_pow2_unfold, pow2};
use vstd::prelude::*;

verus! {

/// A claimed inner product, and the round message that belongs to it.
pub struct Running {
    pub claim: F128,
    pub message: SumcheckMessage,
}

/// Two messages combined.
pub open spec fn glued_message(
    message: SumcheckMessage,
    intro: SumcheckMessage,
    beta: F128,
) -> SumcheckMessage {
    SumcheckMessage {
        u_0: message.u_0 + beta * intro.u_0,
        u_2: message.u_2 + beta * intro.u_2,
    }
}

impl Running {
    /// The claim after a challenge, and the message sent after it.
    pub open spec fn folded(self, r: F128, sent: SumcheckMessage) -> Running {
        Running { claim: quadratic_at(self.message, self.claim, r), message: sent }
    }

    /// The claim after a second claim with its message was glued in.
    pub open spec fn glued(self, value: F128, intro: SumcheckMessage, beta: F128) -> Running {
        Running {
            claim: self.claim + beta * value,
            message: glued_message(self.message, intro, beta),
        }
    }

    /// The claim and the message are those of the planes.
    pub open spec fn true_of(self, state: SumcheckState) -> bool {
        &&& self.claim == inner(state.f, state.basis)
        &&& self.message == message_of(state.f, state.basis)
    }
}

proof fn lemma_products_combine(
    f0: F128,
    b0: F128,
    e0: F128,
    beta: F128,
)
    ensures
        f0 * (b0 + beta * e0) == f0 * b0 + beta * (f0 * e0),
{
    crate::field::law_mul_distributes(f0, b0, beta * e0);
    crate::field::lemma_mul_exchange(f0, beta, e0);
}

/// The message of a glued basis is the combination of the two messages, so no
/// message has to be sent for it.
pub proof fn law_glue_combines_messages(
    f: Seq<F128>,
    basis: Seq<F128>,
    addend: Seq<F128>,
    beta: F128,
)
    requires
        f.len() == basis.len(),
        f.len() == addend.len(),
    ensures
        message_of(f, combine(basis, addend, beta)) == glued_message(
            message_of(f, basis),
            message_of(f, addend),
            beta,
        ),
{
    let n = (f.len() / 2) as int;
    let glued = combine(basis, addend, beta);
    let even = |p: int| beta * even_products(f, addend)(p);
    let sums = |p: int| beta * sum_products(f, addend)(p);
    assert forall|p: int| 0 <= p < n implies #[trigger] even_products(f, glued)(p)
        == even_products(f, basis)(p) + even(p) by {
        lemma_products_combine(f[2 * p], basis[2 * p], addend[2 * p], beta);
    }
    assert forall|p: int| 0 <= p < n implies #[trigger] sum_products(f, glued)(p)
        == sum_products(f, basis)(p) + sums(p) by {
        let (b0, b1) = (basis[2 * p], basis[2 * p + 1]);
        let (e0, e1) = (addend[2 * p], addend[2 * p + 1]);
        crate::field::law_mul_distributes(beta, e0, e1);
        crate::field::lemma_add_exchange(b0, beta * e0, b1, beta * e1);
        lemma_products_combine(f[2 * p] + f[2 * p + 1], b0 + b1, e0 + e1, beta);
    }
    lemma_sum_scale(beta, even_products(f, addend), even, n);
    lemma_sum_scale(beta, sum_products(f, addend), sums, n);
    lemma_sum_add(even_products(f, basis), even, even_products(f, glued), n);
    lemma_sum_add(sum_products(f, basis), sums, sum_products(f, glued), n);
}

/// What is known after some folds.
pub open spec fn running_folds(
    known: Running,
    s: Session,
    bits: u32,
    steps: Seq<FoldStep>,
) -> Running
    decreases steps.len(),
{
    if steps.len() == 0 {
        known
    } else {
        running_folds(known, s, bits, steps.drop_last()).folded(
            steps.last().r,
            after_folds(s, bits, steps).sumcheck.messages.last(),
        )
    }
}

/// Both planes have `2^n` entries and no basis is pending.
pub open spec fn at_rest(state: SumcheckState, n: nat) -> bool {
    &&& state.f.len() == pow2(n)
    &&& state.basis.len() == pow2(n)
    &&& state.pending is None
}

/// Folds keep the claim and the message true, and halve the planes.
pub proof fn law_folds_keep_claim(
    known: Running,
    s: Session,
    bits: u32,
    steps: Seq<FoldStep>,
    n: nat,
)
    requires
        at_rest(s.sumcheck, n),
        steps.len() <= n,
        known.true_of(s.sumcheck),
    ensures
        at_rest(after_folds(s, bits, steps).sumcheck, (n - steps.len()) as nat),
        running_folds(known, s, bits, steps).true_of(after_folds(s, bits, steps).sumcheck),
    decreases steps.len(),
{
    if steps.len() > 0 {
        let before = steps.drop_last();
        law_folds_keep_claim(known, s, bits, before, n);
        let state = after_folds(s, bits, before).sumcheck;
        lemma_pow2_unfold((n - before.len()) as nat);
        law_round_reduces_target(state.f, state.basis, steps.last().r);
    }
}

/// What is known after some out-of-domain samples.
pub open spec fn running_samples(known: Running, s: Session, steps: Seq<OodStep>) -> Running
    decreases steps.len(),
{
    if steps.len() == 0 {
        known
    } else {
        let next = after_samples(s, steps);
        running_samples(known, s, steps.drop_last()).glued(
            next.ood_values.last(),
            next.sumcheck.messages.last(),
            steps.last().beta,
        )
    }
}

/// Out-of-domain samples keep the claim and the message true, and leave the witness
/// plane alone.
pub proof fn law_samples_keep_claim(known: Running, s: Session, steps: Seq<OodStep>, n: nat)
    requires
        at_rest(s.sumcheck, n),
        forall|i: int| 0 <= i < steps.len() ==> (#[trigger] steps[i]).z.len() == n,
        known.true_of(s.sumcheck),
    ensures
        at_rest(after_samples(s, steps).sumcheck, n),
        after_samples(s, steps).sumcheck.f == s.sumcheck.f,
        running_samples(known, s, steps).true_of(after_samples(s, steps).sumcheck),
    decreases steps.len(),
{
    if steps.len() > 0 {
        let before = steps.drop_last();
        assert forall|i: int| 0 <= i < before.len() implies (#[trigger] before[i]).z.len() == n by {
            assert(before[i] == steps[i]);
        }
        law_samples_keep_claim(known, s, before, n);
        let state = after_samples(s, before).sumcheck;
        let step = steps.last();
        assert(step == steps[steps.len() - 1]);
        let table = eq_table(step.z);
        law_glue_combines_targets(state.f, state.basis, table, step.beta);
        law_glue_combines_messages(state.f, state.basis, table, step.beta);
    }
}

/// What is known after a phase, before its folds.
pub open spec fn running_phase(
    known: Running,
    s: Session,
    config: ProverConfig,
    p: int,
    previous: Oracle,
    run: PhaseRun,
) -> Running {
    let end = after_phase(s, config, p, previous, run);
    running_samples(known, s.committed(run.oracle.root()), run.samples).glued(
        run.sum,
        end.sumcheck.messages.last(),
        run.beta,
    )
}

/// What is known after some phases and their folds.
pub open spec fn running_phases(
    known: Running,
    s: Session,
    config: ProverConfig,
    first: Oracle,
    phases: Seq<PhaseRun>,
) -> Running
    decreases phases.len(),
{
    if phases.len() == 0 {
        known
    } else {
        let p = phases.len() - 1;
        let reached = after_phases(s, config, first, phases.drop_last());
        let previous = opened_oracle(first, phases, p);
        running_folds(
            running_phase(
                running_phases(known, s, config, first, phases.drop_last()),
                reached,
                config,
                p,
                previous,
                phases.last(),
            ),
            after_phase(reached, config, p, previous, phases.last()),
            entry(config.fold_grinding_bits@, p + 1) as u32,
            phases.last().folds,
        )
    }
}

/// Every phase samples points of as many coordinates as the plane has variables,
/// folds no more variables than there are, and claims of its induced basis the
/// inner product that it has with the plane.
pub open spec fn phases_true(
    s: Session,
    config: ProverConfig,
    first: Oracle,
    phases: Seq<PhaseRun>,
    n: int,
) -> bool
    decreases phases.len(),
{
    if phases.len() == 0 {
        n >= 0
    } else {
        let run = phases.last();
        let here = n + run.folds.len();
        let f = after_phases(s, config, first, phases.drop_last()).sumcheck.f;
        &&& n >= 0
        &&& phases_true(s, config, first, phases.drop_last(), here)
        &&& forall|i: int|
            0 <= i < run.samples.len() ==> (#[trigger] run.samples[i]).z.len() == here
        &&& run.basis.len() == pow2(here as nat)
        &&& inner(f, run.basis) == run.sum
    }
}

/// The claim and the message that a reader follows through all phases are those of
/// the planes at the end, where `n` variables are left. In particular the plane
/// that is sent has the claimed inner product with the final basis.
pub proof fn law_phases_keep_claim(
    known: Running,
    s: Session,
    config: ProverConfig,
    first: Oracle,
    phases: Seq<PhaseRun>,
    n: int,
)
    requires
        known.true_of(s.sumcheck),
        at_rest(s.sumcheck, variables(phases, n)),
        phases_true(s, config, first, phases, n),
    ensures
        at_rest(after_phases(s, config, first, phases).sumcheck, n as nat),
        running_phases(known, s, config, first, phases).true_of(
            after_phases(s, config, first, phases).sumcheck,
        ),
    decreases phases.len(),
{
    if phases.len() > 0 {
        let p = phases.len() - 1;
        let run = phases.last();
        let before = phases.drop_last();
        let here = n + run.folds.len();
        law_phases_keep_claim(known, s, config, first, before, here);
        let reached = after_phases(s, config, first, before);
        let previous = opened_oracle(first, phases, p);
        let known_here = running_phases(known, s, config, first, before);
        let sent = reached.committed(run.oracle.root());
        law_samples_keep_claim(known_here, sent, run.samples, here as nat);
        let state = after_samples(sent, run.samples).sumcheck;
        law_glue_combines_targets(state.f, state.basis, run.basis, run.beta);
        law_glue_combines_messages(state.f, state.basis, run.basis, run.beta);
        law_folds_keep_claim(
            running_phase(known_here, reached, config, p, previous, run),
            after_phase(reached, config, p, previous, run),
            entry(config.fold_grinding_bits@, p + 1) as u32,
            run.folds,
            here as nat,
        );
    }
}

/// The number of variables before some phases, if `n` are left after them.
pub open spec fn variables(phases: Seq<PhaseRun>, n: int) -> nat
    decreases phases.len(),
{
    if phases.len() == 0 {
        n as nat
    } else {
        variables(phases.drop_last(), n + phases.last().folds.len())
    }
}

/// In every phase the induced basis has the claimed sum with the plane.
pub open spec fn sums_true(
    s: Session,
    config: ProverConfig,
    first: Oracle,
    phases: Seq<PhaseRun>,
) -> bool
    decreases phases.len(),
{
    if phases.len() == 0 {
        true
    } else {
        let before = phases.drop_last();
        &&& sums_true(s, config, first, before)
        &&& inner(after_phases(s, config, first, before).sumcheck.f, phases.last().basis)
            == phases.last().sum
    }
}

proof fn lemma_answers_have_shape<M, P, A, D>(
    kernels: PcsKernels<M, P, A, D>,
    config: ProverConfig,
    log_n: int,
    s: Session,
    first: Oracle,
    prefix: Seq<F128>,
    phases: Seq<PhaseRun>,
) where
    M: Fn(&[F128], usize, usize, usize) -> LigeroWitness,
    P: Fn(&[Digest], usize, &[usize]) -> Vec<Digest>,
    A: Fn(usize, usize, &[Vec<F128>], &[F128], &[usize], &[F128]) -> (Vec<F128>, F128),
    D: Fn(usize, &[Vec<F128>], &[F128], &[usize], &[F128]) -> (Vec<F128>, F128),

    requires
        kernels_ready(kernels),
        config.initial_k <= log_n,
        phases.len() <= config.recursive_steps,
        forall|p: int| 0 <= p < config.recursive_steps ==> phase_fits(config, log_n, p),
        pow2((log_n - config.initial_k) as nat) <= usize::MAX,
        phases_answered(kernels, config, log_n, s, first, prefix, phases),
        sums_true(s, config, first, phases),
    ensures
        phases_true(s, config, first, phases, plane_log(config, log_n, phases.len() as int)),
        variables(phases, plane_log(config, log_n, phases.len() as int)) == log_n
            - config.initial_k,
        0 <= plane_log(config, log_n, phases.len() as int) <= log_n - config.initial_k,
    decreases phases.len(),
{
    if phases.len() > 0 {
        let p = phases.len() - 1;
        let run = phases.last();
        let before = phases.drop_last();
        lemma_answers_have_shape(kernels, config, log_n, s, first, prefix, before);
        assert(phase_fits(config, log_n, p));
        let n = plane_log(config, log_n, p);
        assert(n == plane_log(config, log_n, phases.len() as int) + run.folds.len());
        crate::host::lemma_below_power(n as nat);
        if n < log_n - config.initial_k {
            vstd::arithmetic::power2::lemma_pow2_strictly_increases(
                n as nat,
                (log_n - config.initial_k) as nat,
            );
        }
        assert(n as usize == n);
        assert(run.basis.len() == pow2(n as nat));
    }
}

/// What a finished proof ends with is true: whoever starts with a true claim and
/// follows the transcript ends with the inner product of the plane in the proof and
/// the final basis, provided that every induced basis has the sum that its kernel
/// answered.
pub proof fn law_proof_keeps_claim<M, P, A, D>(
    kernels: PcsKernels<M, P, A, D>,
    config: ProverConfig,
    log_n: int,
    s: Session,
    first: Oracle,
    prefix: Seq<F128>,
    phases: Seq<PhaseRun>,
    last: LastRun,
    history: Seq<Event>,
    proof: LigeritoProof,
    codeword_len: nat,
    tree_len: nat,
    known: Running,
) where
    M: Fn(&[F128], usize, usize, usize) -> LigeroWitness,
    P: Fn(&[Digest], usize, &[usize]) -> Vec<Digest>,
    A: Fn(usize, usize, &[Vec<F128>], &[F128], &[usize], &[F128]) -> (Vec<F128>, F128),
    D: Fn(usize, &[Vec<F128>], &[F128], &[usize], &[F128]) -> (Vec<F128>, F128),

    requires
        kernels_ready(kernels),
        config.initial_k <= log_n,
        config_fits(config, log_n, codeword_len, tree_len),
        completed(kernels, config, log_n, s, first, prefix, phases, last, history, proof),
        at_rest(s.sumcheck, (log_n - config.initial_k) as nat),
        known.true_of(s.sumcheck),
        sums_true(s, config, first, phases),
    ensures
        running_phases(known, s, config, first, phases).claim == inner(
            proof.final_proof.yr@,
            after_phases(s, config, first, phases).sumcheck.basis,
        ),
        at_rest(
            after_phases(s, config, first, phases).sumcheck,
            plane_log(config, log_n, config.recursive_steps as int) as nat,
        ),
        proof.final_proof.yr@.len() == pow2(
            plane_log(config, log_n, config.recursive_steps as int) as nat,
        ),
{
    let small = (log_n - config.initial_k) as nat;
    let large = (log_n + config.log_inv_rates@[0]) as nat;
    if small < large {
        vstd::arithmetic::power2::lemma_pow2_strictly_increases(small, large);
    }
    lemma_answers_have_shape(kernels, config, log_n, s, first, prefix, phases);
    law_phases_keep_claim(
        known,
        s,
        config,
        first,
        phases,
        plane_log(config, log_n, config.recursive_steps as int),
    );
}

/// The number of out-of-domain samples in some phases.
pub open spec fn sample_count(phases: Seq<PhaseRun>) -> nat
    decreases phases.len(),
{
    if phases.len() == 0 {
        0
    } else {
        sample_count(phases.drop_last()) + phases.last().samples.len()
    }
}

/// The number of folds after some phases.
pub open spec fn fold_count(phases: Seq<PhaseRun>) -> nat
    decreases phases.len(),
{
    if phases.len() == 0 {
        0
    } else {
        fold_count(phases.drop_last()) + phases.last().folds.len()
    }
}

/// The number of nonces that folds after `bits` bits of tapering work take.
pub open spec fn tapered_nonces(bits: u32, folds: nat) -> nat {
    if bits < folds {
        bits as nat
    } else {
        folds
    }
}

/// The number of fold nonces in some phases.
pub open spec fn fold_nonce_count(config: ProverConfig, phases: Seq<PhaseRun>) -> nat
    decreases phases.len(),
{
    if phases.len() == 0 {
        0
    } else {
        fold_nonce_count(config, phases.drop_last()) + tapered_nonces(
            entry(config.fold_grinding_bits@, phases.len() as int) as u32,
            phases.last().folds.len(),
        )
    }
}

/// How much a session collects in some folds: a message for each, and a nonce for each
/// that work guards.
pub proof fn law_folds_count(s: Session, bits: u32, steps: Seq<FoldStep>)
    ensures
        ({
            let end = after_folds(s, bits, steps);
            &&& end.roots == s.roots
            &&& end.openings == s.openings
            &&& end.nonces == s.nonces
            &&& end.ood_values == s.ood_values
            &&& end.sumcheck.messages.len() == s.sumcheck.messages.len() + steps.len()
            &&& end.fold_nonces.len() == s.fold_nonces.len() + tapered_nonces(bits, steps.len())
        }),
    decreases steps.len(),
{
    if steps.len() > 0 {
        law_folds_count(s, bits, steps.drop_last());
    }
}

proof fn lemma_samples_count(s: Session, steps: Seq<OodStep>)
    ensures
        ({
            let end = after_samples(s, steps);
            &&& end.roots == s.roots
            &&& end.openings == s.openings
            &&& end.nonces == s.nonces
            &&& end.fold_nonces == s.fold_nonces
            &&& end.ood_values.len() == s.ood_values.len() + steps.len()
            &&& end.sumcheck.messages.len() == s.sumcheck.messages.len() + steps.len()
        }),
    decreases steps.len(),
{
    if steps.len() > 0 {
        lemma_samples_count(s, steps.drop_last());
    }
}

/// How much a session collects in some phases: a root, an opening and a nonce in
/// each, a value for every sample, a message for every sample, every induced basis
/// and every fold, and a nonce for every fold that work guards.
pub proof fn law_phases_count(
    s: Session,
    config: ProverConfig,
    first: Oracle,
    phases: Seq<PhaseRun>,
)
    ensures
        ({
            let end = after_phases(s, config, first, phases);
            &&& end.roots.len() == s.roots.len() + phases.len()
            &&& end.openings.len() == s.openings.len() + phases.len()
            &&& end.nonces.len() == s.nonces.len() + phases.len()
            &&& end.ood_values.len() == s.ood_values.len() + sample_count(phases)
            &&& end.sumcheck.messages.len() == s.sumcheck.messages.len() + sample_count(phases)
                + phases.len() + fold_count(phases)
            &&& end.fold_nonces.len() == s.fold_nonces.len() + fold_nonce_count(config, phases)
        }),
    decreases phases.len(),
{
    if phases.len() > 0 {
        let p = phases.len() - 1;
        let before = phases.drop_last();
        law_phases_count(s, config, first, before);
        let reached = after_phases(s, config, first, before);
        lemma_samples_count(reached.committed(phases.last().oracle.root()), phases.last().samples);
        law_folds_count(
            after_phase(reached, config, p, opened_oracle(first, phases, p), phases.last()),
            entry(config.fold_grinding_bits@, p + 1) as u32,
            phases.last().folds,
        );
    }
}

} // verus!
