//! The transcript of an opening proof, replayed from the proof and the configuration.
//!
//! A reader has the proof, the configuration and the challenges, and puts the transcript
//! together itself: every message, value, root and nonce comes from its place in the lists of
//! the proof, and every amount of work and every range from the configuration.
use crate::field::F128;
use crate::host::first_oracle;
use crate::ligerito::{
    after_folds, after_phase, after_phases, after_samples, challenges, commit_answered, completed,
    config_fits, ended, entry, kernels_ready, observed, opened_oracle, phase_fits,
    phases_answered, plane_log, Digest, FoldStep, LastRun, LigeritoProof, LigeroWitness, OodStep,
    Oracle, PcsKernels, PhaseRun, ProverConfig, Session,
};
use crate::opening::{host_proved, host_start};
use crate::resident_prefix::{
    after_provided, prefix_proved, prefix_start, with_planes, PrefixCall, ProviderStep,
};
use crate::sumcheck::SumcheckMessage;
use crate::transcript::Event;
use vstd::arithmetic::power2::pow2;
use vstd::prelude::*;

verus! {

/// An entry of a list of the configuration, which is taken to go on with zeros.
pub open spec fn listed(list: Seq<usize>, p: int) -> int {
    if 0 <= p < list.len() {
        list[p] as int
    } else {
        0
    }
}

/// The bits of work before the first fold of commitment `p`; work is asked for in 32 bits.
pub open spec fn fold_bits(config: ProverConfig, p: int) -> int {
    (listed(config.fold_grinding_bits@, p) as u32) as int
}

/// The smaller of two numbers.
pub open spec fn smaller(a: int, b: int) -> int {
    if a < b {
        a
    } else {
        b
    }
}

/// The number of variables that are folded before phase `p`.
pub open spec fn variables_before(config: ProverConfig, p: int) -> int
    decreases p,
{
    if p <= 0 {
        config.initial_k as int
    } else {
        variables_before(config, p - 1) + config.recursive_ks@[p - 1]
    }
}

/// The number of values in a proof before those of phase `p`.
pub open spec fn values_before(config: ProverConfig, p: int) -> int
    decreases p,
{
    if p <= 0 {
        0
    } else {
        values_before(config, p - 1) + listed(config.ood_samples@, p)
    }
}

/// The number of messages in a proof before those of phase `p`: the first one, one for every
/// fold, one for every value and one for every induced basis.
pub open spec fn messages_before(config: ProverConfig, p: int) -> int {
    1 + variables_before(config, p) + values_before(config, p) + p
}

/// The number of fold nonces in a proof before those of the folds after phase `p`.
pub open spec fn fold_nonces_before(config: ProverConfig, p: int) -> int
    decreases p,
{
    if p <= 0 {
        smaller(fold_bits(config, 0), config.initial_k as int)
    } else {
        fold_nonces_before(config, p - 1) + smaller(
            fold_bits(config, p),
            config.recursive_ks@[p - 1] as int,
        )
    }
}

/// Both halves of a message sent.
pub open spec fn message_events(message: SumcheckMessage) -> Seq<Event> {
    seq![Event::Observe(message.u_0), Event::Observe(message.u_2)]
}

/// Some folds: before fold `j` there are `bits - j` bits of work as long as that is more than
/// nothing, then the challenge comes, and then the next message. `m` and `w` are the places of
/// the first message and of the first nonce in the proof.
pub open spec fn fold_events(
    proof: LigeritoProof,
    bits: int,
    rs: Seq<F128>,
    m: int,
    w: int,
) -> Seq<Event>
    decreases rs.len(),
{
    if rs.len() == 0 {
        Seq::empty()
    } else {
        let j = rs.len() - 1;
        let work = if j < bits {
            seq![Event::Grind((bits - j) as u32, proof.fold_grinding_nonces@[w + j])]
        } else {
            Seq::empty()
        };
        fold_events(proof, bits, rs.drop_last(), m, w) + work + seq![Event::Sample(rs.last())]
            + message_events(proof.sumcheck_transcript@[m + j])
    }
}

/// Some out-of-domain samples: the point drawn, its value and its message sent, and the factor
/// drawn.
pub open spec fn sample_events(
    proof: LigeritoProof,
    steps: Seq<OodStep>,
    m: int,
    v: int,
) -> Seq<Event>
    decreases steps.len(),
{
    if steps.len() == 0 {
        Seq::empty()
    } else {
        let j = steps.len() - 1;
        sample_events(proof, steps.drop_last(), m, v) + seq![
            Event::SampleVec(steps.last().z),
            Event::Observe(proof.ood_values@[v + j]),
        ] + message_events(proof.sumcheck_transcript@[m + j]) + seq![
            Event::Sample(steps.last().beta),
        ]
    }
}

/// Phase `p`: the root, the samples, the work and the positions in the commitment before, the
/// message of the induced basis and its factor.
pub open spec fn phase_events(
    config: ProverConfig,
    log_n: int,
    proof: LigeritoProof,
    p: int,
    run: PhaseRun,
) -> Seq<Event> {
    let m = messages_before(config, p);
    let v = values_before(config, p);
    let columns = log_n - variables_before(config, p);
    let range = pow2((columns + config.log_inv_rates@[p]) as nat) as usize;
    seq![Event::Bytes(proof.recursive_roots@[p]@)] + sample_events(proof, run.samples, m, v)
        + seq![
        Event::Grind(config.grinding_bits@[p] as u32, proof.grinding_nonces@[p]),
        Event::Queries(range, run.picks),
        Event::SampleVec(run.alpha),
    ] + message_events(proof.sumcheck_transcript@[m + listed(config.ood_samples@, p + 1)])
        + seq![Event::Sample(run.beta)]
}

/// Some phases with the folds after each.
pub open spec fn phases_events(
    config: ProverConfig,
    log_n: int,
    proof: LigeritoProof,
    phases: Seq<PhaseRun>,
) -> Seq<Event>
    decreases phases.len(),
{
    if phases.len() == 0 {
        Seq::empty()
    } else {
        let p = phases.len() - 1;
        let run = phases.last();
        phases_events(config, log_n, proof, phases.drop_last()) + phase_events(
            config,
            log_n,
            proof,
            p,
            run,
        ) + fold_events(
            proof,
            fold_bits(config, p + 1),
            challenges(run.folds),
            messages_before(config, p) + listed(config.ood_samples@, p + 1) + 1,
            fold_nonces_before(config, p),
        )
    }
}

/// The end: the plane in the clear, element by element, the work and the positions in the
/// last commitment, and a last challenge.
pub open spec fn end_events(
    config: ProverConfig,
    log_n: int,
    proof: LigeritoProof,
    last: LastRun,
) -> Seq<Event> {
    let r = config.recursive_steps as int;
    let columns = log_n - variables_before(config, r);
    let range = pow2((columns + config.log_inv_rates@[r]) as nat) as usize;
    Seq::new(proof.final_proof.yr@.len(), |i: int| Event::Observe(proof.final_proof.yr@[i]))
        + seq![
        Event::Grind(config.grinding_bits@[r] as u32, proof.grinding_nonces@[r]),
        Event::Queries(range, last.picks),
        Event::SampleVec(last.alpha),
        Event::Sample(last.beta),
    ]
}

/// The whole transcript of a proof, from its statement on.
pub open spec fn proof_events(
    config: ProverConfig,
    log_n: int,
    target: F128,
    proof: LigeritoProof,
    rs: Seq<F128>,
    phases: Seq<PhaseRun>,
    last: LastRun,
) -> Seq<Event> {
    seq![
        Event::Label("flock-ligerito-basis-v0"@),
        Event::Observe(target),
        Event::Bytes(proof.initial_root@),
    ] + message_events(proof.sumcheck_transcript@[0]) + fold_events(
        proof,
        fold_bits(config, 0),
        rs,
        1,
        0,
    ) + phases_events(config, log_n, proof, phases) + end_events(config, log_n, proof, last)
}

/// The sizes of what the transcript gave out: a challenge for every fold, a point of as many
/// coordinates as variables are left for every sample, and distinct positions in range with
/// enough factors to combine them.
pub open spec fn draws_sized(
    config: ProverConfig,
    log_n: int,
    rs: Seq<F128>,
    phases: Seq<PhaseRun>,
    last: LastRun,
) -> bool {
    let r = config.recursive_steps as int;
    &&& rs.len() == config.initial_k
    &&& phases.len() == r
    &&& forall|p: int| 0 <= p < r ==> #[trigger] phase_sized(config, log_n, p, phases[p])
    &&& positions_sized(config, log_n, r, last.picks, last.alpha)
}

/// The sizes in one phase.
pub open spec fn phase_sized(
    config: ProverConfig,
    log_n: int,
    p: int,
    run: PhaseRun,
) -> bool {
    &&& run.samples.len() == listed(config.ood_samples@, p + 1)
    &&& forall|i: int|
        0 <= i < run.samples.len() ==> (#[trigger] run.samples[i]).z.len() == log_n
            - variables_before(config, p)
    &&& run.folds.len() == config.recursive_ks@[p]
    &&& positions_sized(config, log_n, p, run.picks, run.alpha)
}

/// The positions that open commitment `p`: as many as the configuration asks for, distinct,
/// in the commitment, and with the least number of factors whose table covers them.
pub open spec fn positions_sized(
    config: ProverConfig,
    log_n: int,
    p: int,
    picks: Seq<usize>,
    alpha: Seq<F128>,
) -> bool {
    let columns = log_n - variables_before(config, p);
    &&& picks.len() == config.queries@[p]
    &&& forall|i: int, j: int| 0 <= i < j < picks.len() ==> picks[i] != picks[j]
    &&& forall|i: int|
        0 <= i < picks.len() ==> picks[i] < pow2((columns + config.log_inv_rates@[p]) as nat)
    &&& picks.len() <= pow2(alpha.len())
    &&& picks.len() > 1 ==> pow2((alpha.len() - 1) as nat) < picks.len()
}

/// A session has collected a first part of what the proof holds.
spec fn within(s: Session, proof: LigeritoProof) -> bool {
    &&& s.sumcheck.messages.is_prefix_of(proof.sumcheck_transcript@)
    &&& s.ood_values.is_prefix_of(proof.ood_values@)
    &&& s.fold_nonces.is_prefix_of(proof.fold_grinding_nonces@)
    &&& s.nonces.is_prefix_of(proof.grinding_nonces@)
    &&& s.roots.is_prefix_of(proof.recursive_roots@)
}

proof fn lemma_shorter<T>(list: Seq<T>, x: T, whole: Seq<T>)
    requires
        list.push(x).is_prefix_of(whole),
    ensures
        list.is_prefix_of(whole),
        whole[list.len() as int] == x,
        list.len() < whole.len(),
{
    let more = list.push(x);
    assert(more =~= whole.subrange(0, more.len() as int));
    assert(more[list.len() as int] == whole[list.len() as int]);
    assert forall|i: int| 0 <= i < list.len() implies list[i] == whole[i] by {
        assert(more[i] == whole.subrange(0, more.len() as int)[i]);
    }
    assert(list =~= whole.subrange(0, list.len() as int));
}

/// What one fold adds, if its message is `message`.
spec fn one_fold(
    proof: LigeritoProof,
    bits: int,
    j: int,
    r: F128,
    message: SumcheckMessage,
    w: int,
) -> Seq<Event> {
    let work = if j < bits {
        seq![Event::Grind((bits - j) as u32, proof.fold_grinding_nonces@[w + j])]
    } else {
        Seq::empty()
    };
    work + seq![Event::Sample(r)] + message_events(message)
}

/// The session `after` comes from `before` by one fold with challenge `step`.
spec fn one_fold_later(
    before: Session,
    after: Session,
    bits: u32,
    step: FoldStep,
    message: SumcheckMessage,
) -> bool {
    let drawn = before.challenged(bits, step);
    &&& after.events == drawn.events.push(Event::Observe(message.u_0)).push(
        Event::Observe(message.u_2),
    )
    &&& after.sumcheck.messages == before.sumcheck.messages.push(message)
    &&& after.fold_nonces == drawn.fold_nonces
    &&& after.ood_values == before.ood_values
    &&& after.nonces == before.nonces
    &&& after.roots == before.roots
}

proof fn lemma_one_fold(
    before: Session,
    after: Session,
    bits: u32,
    j: int,
    step: FoldStep,
    message: SumcheckMessage,
    proof: LigeritoProof,
    w: int,
)
    requires
        0 <= j,
        one_fold_later(before, after, crate::ligerito::taper(bits, j), step, message),
        within(after, proof),
        j <= bits ==> before.fold_nonces.len() == w + j,
    ensures
        within(before, proof),
        proof.sumcheck_transcript@[before.sumcheck.messages.len() as int] == message,
        after.events == before.events + one_fold(proof, bits as int, j, step.r, message, w),
        after.sumcheck.messages.len() == before.sumcheck.messages.len() + 1,
        after.fold_nonces.len() == before.fold_nonces.len() + (if j < bits {
            1int
        } else {
            0
        }),
{
    lemma_shorter(before.sumcheck.messages, message, proof.sumcheck_transcript@);
    if j < bits {
        lemma_shorter(before.fold_nonces, step.nonce, proof.fold_grinding_nonces@);
    }
    assert(after.events =~= before.events + one_fold(
        proof,
        bits as int,
        j,
        step.r,
        message,
        w,
    ));
}

proof fn lemma_folds_replay(s: Session, bits: u32, steps: Seq<FoldStep>, proof: LigeritoProof)
    requires
        within(after_folds(s, bits, steps), proof),
    ensures
        within(s, proof),
        after_folds(s, bits, steps).events == s.events + fold_events(
            proof,
            bits as int,
            challenges(steps),
            s.sumcheck.messages.len() as int,
            s.fold_nonces.len() as int,
        ),
        after_folds(s, bits, steps).sumcheck.messages.len() == s.sumcheck.messages.len()
            + steps.len(),
        after_folds(s, bits, steps).fold_nonces.len() == s.fold_nonces.len() + smaller(
            bits as int,
            steps.len() as int,
        ),
        after_folds(s, bits, steps).ood_values == s.ood_values,
        after_folds(s, bits, steps).nonces == s.nonces,
        after_folds(s, bits, steps).roots == s.roots,
    decreases steps.len(),
{
    if steps.len() == 0 {
        assert(challenges(steps) =~= Seq::empty());
        assert(s.events + Seq::<Event>::empty() =~= s.events);
    } else {
        let j = steps.len() - 1;
        let fewer = steps.drop_last();
        let before = after_folds(s, bits, fewer);
        let after = after_folds(s, bits, steps);
        let message = after.sumcheck.messages.last();
        crate::running::law_folds_count(s, bits, fewer);
        assert(challenges(steps).drop_last() =~= challenges(fewer));
        let w = s.fold_nonces.len() as int;
        lemma_one_fold(before, after, bits, j, steps.last(), message, proof, w);
        lemma_folds_replay(s, bits, fewer, proof);
        let m = s.sumcheck.messages.len() as int;
        let rs = challenges(steps);
        assert(after.events =~= s.events + fold_events(proof, bits as int, rs, m, w));
    }
}

proof fn lemma_provided_replay(
    s: Session,
    bits: u32,
    steps: Seq<ProviderStep>,
    proof: LigeritoProof,
)
    requires
        within(after_provided(s, bits, steps), proof),
    ensures
        within(s, proof),
        after_provided(s, bits, steps).events == s.events + fold_events(
            proof,
            bits as int,
            crate::resident_prefix::provider_challenges(steps),
            s.sumcheck.messages.len() as int,
            s.fold_nonces.len() as int,
        ),
        after_provided(s, bits, steps).sumcheck.messages.len() == s.sumcheck.messages.len()
            + steps.len(),
        after_provided(s, bits, steps).fold_nonces.len() == s.fold_nonces.len() + smaller(
            bits as int,
            steps.len() as int,
        ),
        after_provided(s, bits, steps).ood_values == s.ood_values,
        after_provided(s, bits, steps).nonces == s.nonces,
        after_provided(s, bits, steps).roots == s.roots,
    decreases steps.len(),
{
    let all = crate::resident_prefix::provider_challenges(steps);
    if steps.len() == 0 {
        assert(all =~= Seq::empty());
        assert(s.events + Seq::<Event>::empty() =~= s.events);
    } else {
        let j = steps.len() - 1;
        let fewer = steps.drop_last();
        let before = after_provided(s, bits, fewer);
        let after = after_provided(s, bits, steps);
        let step = FoldStep { nonce: steps.last().nonce, r: steps.last().r };
        let message = steps.last().message;
        assert(all.drop_last() =~= crate::resident_prefix::provider_challenges(fewer));
        let w = s.fold_nonces.len() as int;
        lemma_provided_nonces(s, bits, fewer);
        lemma_one_fold(before, after, bits, j, step, message, proof, w);
        lemma_provided_replay(s, bits, fewer, proof);
        let m = s.sumcheck.messages.len() as int;
        assert(after.events =~= s.events + fold_events(proof, bits as int, all, m, w));
    }
}

proof fn lemma_provided_nonces(s: Session, bits: u32, steps: Seq<ProviderStep>)
    ensures
        after_provided(s, bits, steps).fold_nonces.len() == s.fold_nonces.len() + smaller(
            bits as int,
            steps.len() as int,
        ),
    decreases steps.len(),
{
    if steps.len() > 0 {
        lemma_provided_nonces(s, bits, steps.drop_last());
    }
}

proof fn lemma_samples_replay(s: Session, steps: Seq<OodStep>, proof: LigeritoProof)
    requires
        within(after_samples(s, steps), proof),
    ensures
        within(s, proof),
        after_samples(s, steps).events == s.events + sample_events(
            proof,
            steps,
            s.sumcheck.messages.len() as int,
            s.ood_values.len() as int,
        ),
        after_samples(s, steps).sumcheck.messages.len() == s.sumcheck.messages.len() + steps.len(),
        after_samples(s, steps).ood_values.len() == s.ood_values.len() + steps.len(),
        after_samples(s, steps).fold_nonces == s.fold_nonces,
        after_samples(s, steps).nonces == s.nonces,
        after_samples(s, steps).roots == s.roots,
    decreases steps.len(),
{
    if steps.len() == 0 {
        assert(s.events + Seq::<Event>::empty() =~= s.events);
    } else {
        let fewer = steps.drop_last();
        let before = after_samples(s, fewer);
        let after = after_samples(s, steps);
        let value = after.ood_values.last();
        let message = after.sumcheck.messages.last();
        assert(after.sumcheck.messages =~= before.sumcheck.messages.push(message));
        lemma_shorter(before.sumcheck.messages, message, proof.sumcheck_transcript@);
        lemma_shorter(before.ood_values, value, proof.ood_values@);
        lemma_samples_replay(s, fewer, proof);
        let m = s.sumcheck.messages.len() as int;
        let v = s.ood_values.len() as int;
        assert(after.events =~= s.events + sample_events(proof, steps, m, v));
    }
}

pub(crate) proof fn lemma_plane_log(config: ProverConfig, log_n: int, p: int)
    requires
        0 <= p,
    ensures
        plane_log(config, log_n, p) == log_n - variables_before(config, p),
    decreases p,
{
    if p > 0 {
        lemma_plane_log(config, log_n, p - 1);
    }
}

/// Where a session stands before phase `p`.
spec fn before_phase(s: Session, config: ProverConfig, p: int) -> bool {
    &&& s.sumcheck.messages.len() == messages_before(config, p)
    &&& s.ood_values.len() == values_before(config, p)
    &&& s.fold_nonces.len() == fold_nonces_before(config, p)
    &&& s.nonces.len() == p
    &&& s.roots.len() == p
}

proof fn lemma_phase_replay(
    s: Session,
    config: ProverConfig,
    log_n: int,
    p: int,
    previous: Oracle,
    run: PhaseRun,
    proof: LigeritoProof,
)
    requires
        0 <= p,
        before_phase(s, config, p),
        within(after_phase(s, config, p, previous, run), proof),
        run.samples.len() == listed(config.ood_samples@, p + 1),
        previous.block_len == pow2(
            (log_n - variables_before(config, p) + config.log_inv_rates@[p]) as nat,
        ),
    ensures
        within(s, proof),
        ({
            let after = after_phase(s, config, p, previous, run);
            &&& after.events == s.events + phase_events(config, log_n, proof, p, run)
            &&& after.sumcheck.messages.len() == messages_before(config, p) + run.samples.len() + 1
            &&& after.ood_values.len() == values_before(config, p + 1)
            &&& after.fold_nonces.len() == fold_nonces_before(config, p)
            &&& after.nonces.len() == p + 1
            &&& after.roots.len() == p + 1
        }),
{
    let after = after_phase(s, config, p, previous, run);
    let sent = s.committed(run.oracle.root());
    let sampled = after_samples(sent, run.samples);
    let message = after.sumcheck.messages.last();
    assert(after.sumcheck.messages =~= sampled.sumcheck.messages.push(message));
    lemma_shorter(sampled.sumcheck.messages, message, proof.sumcheck_transcript@);
    lemma_shorter(sampled.nonces, run.nonce, proof.grinding_nonces@);
    lemma_samples_replay(sent, run.samples, proof);
    lemma_shorter(s.roots, run.oracle.root(), proof.recursive_roots@);
    assert(after.events =~= s.events + phase_events(config, log_n, proof, p, run));
}

pub(crate) proof fn lemma_block_len<M, P, A, D>(
    kernels: PcsKernels<M, P, A, D>,
    config: ProverConfig,
    log_n: int,
    s: Session,
    codeword: Seq<F128>,
    tree: Seq<Digest>,
    prefix: Seq<F128>,
    phases: Seq<PhaseRun>,
)
    where
    M: Fn(&[F128], usize, usize, usize) -> LigeroWitness,
    P: Fn(&[Digest], usize, &[usize]) -> Vec<Digest>,
    A: Fn(usize, usize, &[Vec<F128>], &[F128], &[usize], &[F128]) -> (Vec<F128>, F128),
    D: Fn(usize, &[Vec<F128>], &[F128], &[usize], &[F128]) -> (Vec<F128>, F128),

    requires
        kernels_ready(kernels),
        config.initial_k <= log_n,
        config_fits(config, log_n, codeword.len(), tree.len()),
        phases.len() <= config.recursive_steps,
        phases_answered(
            kernels,
            config,
            log_n,
            s,
            first_oracle(config, log_n, codeword, tree),
            prefix,
            phases,
        ),
    ensures
        opened_oracle(
            first_oracle(config, log_n, codeword, tree),
            phases,
            phases.len() as int,
        ).block_len == pow2(
            (log_n - variables_before(config, phases.len() as int)
                + config.log_inv_rates@[phases.len() as int]) as nat,
        ),
        0 <= plane_log(config, log_n, phases.len() as int) <= log_n - config.initial_k,
    decreases phases.len(),
{
    let p = phases.len() as int;
    let first = first_oracle(config, log_n, codeword, tree);
    lemma_plane_log(config, log_n, p);
    if p > 0 {
        let before = phases.drop_last();
        let run = phases.last();
        lemma_block_len(kernels, config, log_n, s, codeword, tree, prefix, before);
        lemma_plane_log(config, log_n, p - 1);
        assert(phase_fits(config, log_n, p - 1));
        let n = plane_log(config, log_n, p - 1);
        let k = config.recursive_ks@[p - 1];
        let rate = config.log_inv_rates@[p];
        let f = after_phases(s, config, first, before).sumcheck.f;
        let columns = (n - k) as usize;
        assert(commit_answered(kernels.commit, f, columns, k, rate, run.oracle));
        let (g, w) = choose|g: &[F128], w: LigeroWitness| #[trigger]
            call_ensures(kernels.commit, (g, columns, k, rate), w) && g@ == f && w@ == run.oracle;
        assert(w@.shaped(columns as nat, k as nat, rate as nat));
        crate::host::lemma_below_power((n + rate) as nat);
        assert(columns == n - k);
    }
}

proof fn lemma_phases_replay<M, P, A, D>(
    kernels: PcsKernels<M, P, A, D>,
    config: ProverConfig,
    log_n: int,
    s: Session,
    codeword: Seq<F128>,
    tree: Seq<Digest>,
    prefix: Seq<F128>,
    phases: Seq<PhaseRun>,
    proof: LigeritoProof,
)
    where
    M: Fn(&[F128], usize, usize, usize) -> LigeroWitness,
    P: Fn(&[Digest], usize, &[usize]) -> Vec<Digest>,
    A: Fn(usize, usize, &[Vec<F128>], &[F128], &[usize], &[F128]) -> (Vec<F128>, F128),
    D: Fn(usize, &[Vec<F128>], &[F128], &[usize], &[F128]) -> (Vec<F128>, F128),

    requires
        kernels_ready(kernels),
        config.initial_k <= log_n,
        config_fits(config, log_n, codeword.len(), tree.len()),
        phases.len() <= config.recursive_steps,
        phases_answered(
            kernels,
            config,
            log_n,
            s,
            first_oracle(config, log_n, codeword, tree),
            prefix,
            phases,
        ),
        before_phase(s, config, 0),
        within(
            after_phases(s, config, first_oracle(config, log_n, codeword, tree), phases),
            proof,
        ),
    ensures
        within(s, proof),
        ({
            let after = after_phases(
                s,
                config,
                first_oracle(config, log_n, codeword, tree),
                phases,
            );
            &&& after.events == s.events + phases_events(config, log_n, proof, phases)
            &&& before_phase(after, config, phases.len() as int)
        }),
        forall|p: int|
            0 <= p < phases.len() ==> #[trigger] phase_sized(config, log_n, p, phases[p]),
    decreases phases.len(),
{
    let first = first_oracle(config, log_n, codeword, tree);
    if phases.len() == 0 {
        assert(s.events + Seq::<Event>::empty() =~= s.events);
    } else {
        let p = phases.len() - 1;
        let before = phases.drop_last();
        let run = phases.last();
        let reached = after_phases(s, config, first, before);
        let previous = opened_oracle(first, phases, p);
        assert(previous == opened_oracle(first, before, p));
        let phase = after_phase(reached, config, p, previous, run);
        let bits = entry(config.fold_grinding_bits@, p + 1) as u32;
        lemma_folds_replay(phase, bits, run.folds, proof);
        lemma_block_len(kernels, config, log_n, s, codeword, tree, prefix, before);
        lemma_plane_log(config, log_n, p);
        lemma_phase_lists(reached, config, p, previous, run, proof);
        lemma_phases_replay(
            kernels,
            config,
            log_n,
            s,
            codeword,
            tree,
            prefix,
            before,
            proof,
        );
        lemma_phase_replay(reached, config, log_n, p, previous, run, proof);
        crate::ligerito::law_log2_ceiling(config.queries@[p] as nat);
        assert(phase_sized(config, log_n, p, run));
        assert forall|q: int| 0 <= q < phases.len() implies #[trigger] phase_sized(
            config,
            log_n,
            q,
            phases[q],
        ) by {
            if q < p {
                assert(phase_sized(config, log_n, q, before[q]));
            }
        }
        let after = after_phases(s, config, first, phases);
        assert(after.events =~= s.events + phases_events(config, log_n, proof, phases));
    }
}

/// What is collected before a phase is a first part of what is collected after it.
proof fn lemma_phase_lists(
    s: Session,
    config: ProverConfig,
    p: int,
    previous: Oracle,
    run: PhaseRun,
    proof: LigeritoProof,
)
    requires
        within(after_phase(s, config, p, previous, run), proof),
    ensures
        within(s, proof),
{
    let after = after_phase(s, config, p, previous, run);
    let sent = s.committed(run.oracle.root());
    let sampled = after_samples(sent, run.samples);
    let message = after.sumcheck.messages.last();
    assert(after.sumcheck.messages =~= sampled.sumcheck.messages.push(message));
    lemma_shorter(sampled.sumcheck.messages, message, proof.sumcheck_transcript@);
    lemma_shorter(sampled.nonces, run.nonce, proof.grinding_nonces@);
    lemma_samples_replay(sent, run.samples, proof);
    lemma_shorter(s.roots, run.oracle.root(), proof.recursive_roots@);
}

proof fn lemma_observed(events: Seq<Event>, values: Seq<F128>)
    ensures
        observed(events, values) == events + Seq::new(
            values.len(),
            |i: int| Event::Observe(values[i]),
        ),
    decreases values.len(),
{
    let all = Seq::new(values.len(), |i: int| Event::Observe(values[i]));
    if values.len() > 0 {
        lemma_observed(events, values.drop_last());
    }
    assert(observed(events, values) =~= events + all);
}

/// The end of a proof, from the session after the folds of the first commitment.
proof fn lemma_completed_replay<M, P, A, D>(
    kernels: PcsKernels<M, P, A, D>,
    config: ProverConfig,
    log_n: int,
    s: Session,
    codeword: Seq<F128>,
    tree: Seq<Digest>,
    prefix: Seq<F128>,
    phases: Seq<PhaseRun>,
    last: LastRun,
    history: Seq<Event>,
    proof: LigeritoProof,
)
    where
    M: Fn(&[F128], usize, usize, usize) -> LigeroWitness,
    P: Fn(&[Digest], usize, &[usize]) -> Vec<Digest>,
    A: Fn(usize, usize, &[Vec<F128>], &[F128], &[usize], &[F128]) -> (Vec<F128>, F128),
    D: Fn(usize, &[Vec<F128>], &[F128], &[usize], &[F128]) -> (Vec<F128>, F128),

    requires
        kernels_ready(kernels),
        config.initial_k <= log_n,
        config_fits(config, log_n, codeword.len(), tree.len()),
        before_phase(s, config, 0),
        completed(
            kernels,
            config,
            log_n,
            s,
            first_oracle(config, log_n, codeword, tree),
            prefix,
            phases,
            last,
            history,
            proof,
        ),
    ensures
        within(s, proof),
        history == s.events + phases_events(config, log_n, proof, phases) + end_events(
            config,
            log_n,
            proof,
            last,
        ),
        prefix.len() == config.initial_k ==> draws_sized(config, log_n, prefix, phases, last),
        lists_sized(config, log_n, proof),
{
    let first = first_oracle(config, log_n, codeword, tree);
    let r = config.recursive_steps as int;
    let reached = after_phases(s, config, first, phases);
    let oracle = opened_oracle(first, phases, r);
    let end = ended(reached, config, oracle.block_len as usize, last);
    assert(proof.sumcheck_transcript@.is_prefix_of(proof.sumcheck_transcript@));
    assert(proof.ood_values@.is_prefix_of(proof.ood_values@));
    assert(proof.fold_grinding_nonces@.is_prefix_of(proof.fold_grinding_nonces@));
    assert(proof.grinding_nonces@.is_prefix_of(proof.grinding_nonces@));
    assert(proof.recursive_roots@.is_prefix_of(proof.recursive_roots@));
    lemma_shorter(reached.nonces, last.nonce, proof.grinding_nonces@);
    lemma_phases_replay(
        kernels,
        config,
        log_n,
        s,
        codeword,
        tree,
        prefix,
        phases,
        proof,
    );
    lemma_block_len(kernels, config, log_n, s, codeword, tree, prefix, phases);
    lemma_observed(reached.events, reached.sumcheck.f);
    crate::ligerito::law_log2_ceiling(config.queries@[r] as nat);
    assert(history =~= s.events + phases_events(config, log_n, proof, phases) + end_events(
        config,
        log_n,
        proof,
        last,
    ));
}

/// How much a proof holds: a message at the start, for every fold, for every value and for
/// every induced basis, a nonce for every opened commitment, a root for every phase, and a
/// nonce for every fold that is guarded by work.
pub open spec fn lists_sized(config: ProverConfig, log_n: int, proof: LigeritoProof) -> bool {
    let r = config.recursive_steps as int;
    &&& proof.sumcheck_transcript@.len() == messages_before(config, r)
    &&& proof.ood_values@.len() == values_before(config, r)
    &&& proof.fold_grinding_nonces@.len() == fold_nonces_before(config, r)
    &&& proof.grinding_nonces@.len() == r + 1
    &&& proof.recursive_roots@.len() == r
}

/// A proof that the host made holds its own transcript: what was appended is what a reader
/// puts together from the proof, the configuration and the challenges.
pub proof fn law_host_transcript_is_replayed<M, P, A, D>(
    kernels: PcsKernels<M, P, A, D>,
    config: ProverConfig,
    log_n: int,
    history_before: Seq<Event>,
    f: Seq<F128>,
    basis: Seq<F128>,
    target: F128,
    first: SumcheckMessage,
    codeword: Seq<F128>,
    tree: Seq<Digest>,
    steps: Seq<FoldStep>,
    phases: Seq<PhaseRun>,
    last: LastRun,
    history: Seq<Event>,
    proof: LigeritoProof,
)
    where
    M: Fn(&[F128], usize, usize, usize) -> LigeroWitness,
    P: Fn(&[Digest], usize, &[usize]) -> Vec<Digest>,
    A: Fn(usize, usize, &[Vec<F128>], &[F128], &[usize], &[F128]) -> (Vec<F128>, F128),
    D: Fn(usize, &[Vec<F128>], &[F128], &[usize], &[F128]) -> (Vec<F128>, F128),

    requires
        kernels_ready(kernels),
        config.initial_k <= log_n,
        config_fits(config, log_n, codeword.len(), tree.len()),
        host_proved(
            kernels,
            config,
            log_n,
            host_start(history_before, f, basis, target, tree.last(), first),
            codeword,
            tree,
            steps,
            phases,
            last,
            history,
            proof,
        ),
    ensures
        history == history_before + proof_events(
            config,
            log_n,
            target,
            proof,
            challenges(steps),
            phases,
            last,
        ),
        draws_sized(config, log_n, challenges(steps), phases, last),
        lists_sized(config, log_n, proof),
        proof.initial_root == tree.last(),
        proof.sumcheck_transcript@[0] == first,
{
    let start = host_start(history_before, f, basis, target, tree.last(), first);
    let bits = entry(config.fold_grinding_bits@, 0) as u32;
    let s = after_folds(start, bits, steps);
    crate::running::law_folds_count(start, bits, steps);
    lemma_completed_replay(
        kernels,
        config,
        log_n,
        s,
        codeword,
        tree,
        challenges(steps),
        phases,
        last,
        history,
        proof,
    );
    lemma_folds_replay(start, bits, steps, proof);
    assert(start.sumcheck.messages =~= Seq::empty().push(first));
    lemma_shorter(Seq::empty(), first, proof.sumcheck_transcript@);
    assert(history =~= history_before + proof_events(
        config,
        log_n,
        target,
        proof,
        challenges(steps),
        phases,
        last,
    ));
}

/// A proof made with a provider holds its own transcript too, whatever the provider answered:
/// the challenges are those that the provider was given, and its answers are the messages.
pub proof fn law_provider_transcript_is_replayed<M, P, A, D>(
    kernels: PcsKernels<M, P, A, D>,
    config: ProverConfig,
    log_n: int,
    history_before: Seq<Event>,
    target: F128,
    first: SumcheckMessage,
    codeword: Seq<F128>,
    tree: Seq<Digest>,
    calls_before: Seq<PrefixCall>,
    steps: Seq<ProviderStep>,
    planes: (Seq<F128>, Seq<F128>),
    phases: Seq<PhaseRun>,
    last: LastRun,
    history: Seq<Event>,
    calls: Seq<PrefixCall>,
    proof: LigeritoProof,
)
    where
    M: Fn(&[F128], usize, usize, usize) -> LigeroWitness,
    P: Fn(&[Digest], usize, &[usize]) -> Vec<Digest>,
    A: Fn(usize, usize, &[Vec<F128>], &[F128], &[usize], &[F128]) -> (Vec<F128>, F128),
    D: Fn(usize, &[Vec<F128>], &[F128], &[usize], &[F128]) -> (Vec<F128>, F128),

    requires
        kernels_ready(kernels),
        config.initial_k <= log_n,
        config_fits(config, log_n, codeword.len(), tree.len()),
        prefix_proved(
            kernels,
            config,
            log_n,
            first_oracle(config, log_n, codeword, tree),
            prefix_start(history_before, target, tree.last(), first),
            calls_before,
            steps,
            planes,
            phases,
            last,
            history,
            calls,
            proof,
        ),
    ensures
        history == history_before + proof_events(
            config,
            log_n,
            target,
            proof,
            Seq::new(steps.len(), |j: int| steps[j].r),
            phases,
            last,
        ),
        draws_sized(
            config,
            log_n,
            Seq::new(steps.len(), |j: int| steps[j].r),
            phases,
            last,
        ),
        lists_sized(config, log_n, proof),
        proof.initial_root == tree.last(),
        proof.sumcheck_transcript@[0] == first,
        forall|j: int|
            0 <= j < config.initial_k ==> #[trigger] proof.sumcheck_transcript@[j + 1]
                == steps[j].message,
        calls.len() == calls_before.len() + config.initial_k + 1,
        forall|j: int|
            0 <= j < config.initial_k ==> #[trigger] calls[calls_before.len() + j]
                == (PrefixCall::Advance { rho: steps[j].r, reply: Ok(steps[j].message) }),
        calls.last() == (PrefixCall::Finish { planes: Ok(planes) }),
{
    let start = prefix_start(history_before, target, tree.last(), first);
    let bits = entry(config.fold_grinding_bits@, 0) as u32;
    let folded = after_provided(start, bits, steps);
    let s = with_planes(folded, planes.0, planes.1);
    let rs = crate::resident_prefix::provider_challenges(steps);
    lemma_provided_counts(start, bits, steps);
    lemma_completed_replay(
        kernels,
        config,
        log_n,
        s,
        codeword,
        tree,
        rs,
        phases,
        last,
        history,
        proof,
    );
    lemma_provided_replay(start, bits, steps, proof);
    assert(rs =~= Seq::new(steps.len(), |j: int| steps[j].r));
    assert(start.sumcheck.messages =~= Seq::empty().push(first));
    lemma_shorter(Seq::empty(), first, proof.sumcheck_transcript@);
    assert forall|j: int| 0 <= j < config.initial_k implies #[trigger] proof.sumcheck_transcript@[j
        + 1] == steps[j].message by {
        let all = proof.sumcheck_transcript@;
        assert(folded.sumcheck.messages =~= all.subrange(
            0,
            folded.sumcheck.messages.len() as int,
        ));
        assert(folded.sumcheck.messages[start.sumcheck.messages.len() + j] == steps[j].message);
    }
    assert(history =~= history_before + proof_events(
        config,
        log_n,
        target,
        proof,
        rs,
        phases,
        last,
    ));
}

proof fn lemma_provided_counts(s: Session, bits: u32, steps: Seq<ProviderStep>)
    ensures
        ({
            let after = after_provided(s, bits, steps);
            &&& after.sumcheck.messages.len() == s.sumcheck.messages.len() + steps.len()
            &&& after.fold_nonces.len() == s.fold_nonces.len() + smaller(
                bits as int,
                steps.len() as int,
            )
            &&& after.ood_values == s.ood_values
            &&& after.nonces == s.nonces
            &&& after.roots == s.roots
            &&& forall|j: int|
                0 <= j < steps.len() ==> #[trigger] after.sumcheck.messages[
                s.sumcheck.messages.len() + j] == steps[j].message
            &&& forall|j: int|
                0 <= j < s.sumcheck.messages.len() ==> after.sumcheck.messages[j]
                    == s.sumcheck.messages[j]
        }),
    decreases steps.len(),
{
    if steps.len() > 0 {
        let fewer = steps.drop_last();
        lemma_provided_counts(s, bits, fewer);
        let before = after_provided(s, bits, fewer);
        let after = after_provided(s, bits, steps);
        assert forall|j: int| 0 <= j < steps.len() implies #[trigger] after.sumcheck.messages[
        s.sumcheck.messages.len() + j] == steps[j].message by {
            if j < fewer.len() {
                assert(before.sumcheck.messages[s.sumcheck.messages.len() + j] == fewer[j].message);
            }
        }
    }
}

/// Where fold `j` stands among some folds with `bits` bits of work before the first.
pub open spec fn fold_place(bits: int, j: int) -> int {
    3 * j + smaller(bits, j)
}

/// The work before fold `j` is `bits - j` bits as long as that is more than nothing: the
/// grinding stands right before the challenge of the fold, and where no work is left there is
/// none.
pub proof fn law_fold_work(
    proof: LigeritoProof,
    bits: int,
    rs: Seq<F128>,
    m: int,
    w: int,
    j: int,
)
    requires
        0 <= j < rs.len(),
        0 <= bits,
    ensures
        ({
            let events = fold_events(proof, bits, rs, m, w);
            let at = fold_place(bits, j);
            let draw = if j < bits {
                at + 1
            } else {
                at
            };
            &&& events.len() == fold_place(bits, rs.len() as int)
            &&& j < bits ==> events[at] == Event::Grind(
                (bits - j) as u32,
                proof.fold_grinding_nonces@[w + j],
            )
            &&& events[draw] == Event::Sample(rs[j])
            &&& events[draw + 1] == Event::Observe(proof.sumcheck_transcript@[m + j].u_0)
            &&& events[draw + 2] == Event::Observe(proof.sumcheck_transcript@[m + j].u_2)
        }),
    decreases rs.len(),
{
    let n = rs.len() - 1;
    let fewer = rs.drop_last();
    lemma_fold_length(proof, bits, fewer, m, w);
    lemma_fold_length(proof, bits, rs, m, w);
    if j < n {
        law_fold_work(proof, bits, fewer, m, w, j);
        let before = fold_events(proof, bits, fewer, m, w);
        let events = fold_events(proof, bits, rs, m, w);
        assert(events.take(before.len() as int) =~= before);
        let draw = if j < bits {
            fold_place(bits, j) + 1
        } else {
            fold_place(bits, j)
        };
        assert(draw + 2 < before.len());
        assert(events[draw] == before[draw] && events[draw + 1] == before[draw + 1] && events[draw
            + 2] == before[draw + 2]);
        assert(events[fold_place(bits, j)] == before[fold_place(bits, j)]);
    }
}

proof fn lemma_fold_length(proof: LigeritoProof, bits: int, rs: Seq<F128>, m: int, w: int)
    requires
        0 <= bits,
    ensures
        fold_events(proof, bits, rs, m, w).len() == fold_place(bits, rs.len() as int),
    decreases rs.len(),
{
    if rs.len() > 0 {
        lemma_fold_length(proof, bits, rs.drop_last(), m, w);
    }
}

} // verus!
