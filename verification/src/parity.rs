//! Runs that give the same result: openings with a processor provider, openings of
//! combined claims, and the recursive prover of the host.
use crate::cpu_prefix::{prefix_log_fits, prefix_state, StartedFault};
use crate::faithful::{
    folded_through, host_steps, law_faithful_prefix_provider, law_folding_provider_stays_faithful,
    prefix_faithful,
};
use crate::field::F128;
use crate::host::first_oracle;
use crate::ligerito::{
    is_power, law_log2_of_power, log2_of, Digest, FoldStep, LastRun, LigeritoProof, LigeroWitness,
    PcsKernels, PhaseRun, ProverConfig, Session,
};
use crate::opening::{
    geometry_fits, host_completed, host_proved, host_start, PcsParams, LOG_PACKING,
};
use crate::resident_prefix::{
    begun_outcome, first_message, fold_calls, prefix_failed, prefix_outcome, prefix_proved,
    prefix_start, prefix_stopped, provider_challenges, PrefixCall, ProviderStep,
};
use crate::sumcheck::SumcheckMessage;
use crate::transcript::{obeys, Event, Rule};
use crate::unique::{kernels_functional, law_host_proof_is_unique};
use vstd::arithmetic::power2::{lemma_pow2_unfold, pow2};
use vstd::prelude::*;

verus! {

/// A log of folds that a processor provider answered is a faithful one, whatever fault it
/// has: its messages and its planes are those of folding from the planes that it started
/// with, and it has counted every fold.
pub proof fn law_processor_log_is_faithful(
    before: Seq<PrefixCall>,
    steps: Seq<ProviderStep>,
    fault: StartedFault,
)
    requires
        prefix_log_fits(before + fold_calls(steps), fault),
        prefix_state(before).a.len() == prefix_state(before).b.len(),
        prefix_state(before).advances + steps.len() <= usize::MAX,
    ensures
        prefix_log_fits(before, fault),
        prefix_faithful(prefix_state(before).a, prefix_state(before).b, steps),
        prefix_state(before + fold_calls(steps)).a == folded_through(
            prefix_state(before).a,
            provider_challenges(steps),
        ),
        prefix_state(before + fold_calls(steps)).b == folded_through(
            prefix_state(before).b,
            provider_challenges(steps),
        ),
        prefix_state(before + fold_calls(steps)).advances == prefix_state(before).advances
            + steps.len(),
        prefix_state(before + fold_calls(steps)).finishes == prefix_state(before).finishes,
    decreases steps.len(),
{
    let log = before + fold_calls(steps);
    if steps.len() == 0 {
        assert(log =~= before);
    } else {
        let fewer = steps.drop_last();
        assert(log.drop_last() =~= before + fold_calls(fewer));
        law_processor_log_is_faithful(before, fewer, fault);
        assert(log.last() == PrefixCall::Advance {
            rho: steps.last().r,
            reply: Ok(steps.last().message),
        });
        law_folding_provider_stays_faithful(
            prefix_state(before).a,
            prefix_state(before).b,
            fewer,
            steps.last(),
        );
        assert(fewer.push(steps.last()) =~= steps);
    }
}

pub(crate) proof fn lemma_folded_length(plane: Seq<F128>, rs: Seq<F128>, n: nat)
    requires
        plane.len() == pow2(n),
        rs.len() <= n,
    ensures
        folded_through(plane, rs).len() == pow2((n - rs.len()) as nat),
    decreases rs.len(),
{
    if rs.len() > 0 {
        lemma_folded_length(plane, rs.drop_last(), n);
        lemma_pow2_unfold((n - rs.len() + 1) as nat);
    }
}

/// With a processor provider that holds the planes and has no fault, there is a proof,
/// it is one of the host, and the provider has folded `initial_k` times and exported
/// once.
pub proof fn law_processor_folds_give_the_host_proof<M, P, A, D>(
    kernels: PcsKernels<M, P, A, D>,
    config: ProverConfig,
    log_n: int,
    f: Seq<F128>,
    basis: Seq<F128>,
    target: F128,
    codeword: Seq<F128>,
    tree: Seq<Digest>,
    first: SumcheckMessage,
    history_before: Seq<Event>,
    calls_before: Seq<PrefixCall>,
    history: Seq<Event>,
    calls: Seq<PrefixCall>,
    res: Result<LigeritoProof, String>,
) where
    M: Fn(&[F128], usize, usize, usize) -> LigeroWitness,
    P: Fn(&[Digest], usize, &[usize]) -> Vec<Digest>,
    A: Fn(usize, usize, &[Vec<F128>], &[F128], &[usize], &[F128]) -> (Vec<F128>, F128),
    D: Fn(usize, &[Vec<F128>], &[F128], &[usize], &[F128]) -> (Vec<F128>, F128),

    requires
        prefix_outcome(
            kernels,
            config,
            log_n,
            first_oracle(config, log_n, codeword, tree),
            prefix_start(history_before, target, tree.last(), first),
            calls_before,
            history,
            calls,
            res,
        ),
        config.initial_k <= log_n,
        f.len() == pow2(log_n as nat),
        basis.len() == f.len(),
        prefix_state(calls_before).a == f,
        prefix_state(calls_before).b == basis,
        prefix_state(calls_before).advances + config.initial_k <= usize::MAX,
        prefix_state(calls_before).finishes < usize::MAX,
        prefix_log_fits(calls, StartedFault::Absent),
    ensures
        res is Ok,
        host_completed(
            kernels,
            config,
            log_n,
            host_start(history_before, f, basis, target, tree.last(), first),
            codeword,
            tree,
            history,
            res->Ok_0,
        ),
        prefix_state(calls).advances == prefix_state(calls_before).advances + config.initial_k,
        prefix_state(calls).finishes == prefix_state(calls_before).finishes + 1,
        prefix_state(calls).a == Seq::<F128>::empty(),
        prefix_state(calls).b == Seq::<F128>::empty(),
{
    let oracle = first_oracle(config, log_n, codeword, tree);
    let start = prefix_start(history_before, target, tree.last(), first);
    let bits = crate::ligerito::entry(config.fold_grinding_bits@, 0) as u32;
    let tail = pow2((log_n - config.initial_k) as nat);
    match res {
        Err(e) => {
            assert(prefix_failed(
                start,
                bits,
                config.initial_k,
                tail,
                calls_before,
                history,
                calls,
                e,
            ));
            let (steps, pending) = choose|steps: Seq<ProviderStep>, pending: FoldStep| #[trigger]
                prefix_stopped(
                    start,
                    bits,
                    config.initial_k,
                    tail,
                    calls_before,
                    steps,
                    pending,
                    history,
                    calls,
                    e,
                );
            let answered = calls_before + fold_calls(steps);
            assert(calls.drop_last() =~= answered);
            law_processor_log_is_faithful(calls_before, steps, StartedFault::Absent);
            lemma_folded_length(f, provider_challenges(steps), log_n as nat);
            lemma_folded_length(basis, provider_challenges(steps), log_n as nat);
            assert(prefix_state(answered).fits(calls.last(), StartedFault::Absent));
            assert(false);
        },
        Ok(proof) => {
            let (steps, planes, phases, last) = choose|
                steps: Seq<ProviderStep>,
                planes: (Seq<F128>, Seq<F128>),
                phases: Seq<PhaseRun>,
                last: LastRun,
            | #[trigger]
                prefix_proved(
                    kernels,
                    config,
                    log_n,
                    oracle,
                    start,
                    calls_before,
                    steps,
                    planes,
                    phases,
                    last,
                    history,
                    calls,
                    proof,
                );
            let answered = calls_before + fold_calls(steps);
            assert(calls.drop_last() =~= answered);
            law_processor_log_is_faithful(calls_before, steps, StartedFault::Absent);
            assert(prefix_state(answered).fits(calls.last(), StartedFault::Absent));
            law_faithful_prefix_provider(
                kernels,
                config,
                log_n,
                codeword,
                tree,
                history_before,
                f,
                basis,
                target,
                first,
                calls_before,
                steps,
                planes,
                phases,
                last,
                history,
                calls,
                proof,
            );
            assert(host_proved(
                kernels,
                config,
                log_n,
                host_start(history_before, f, basis, target, tree.last(), first),
                codeword,
                tree,
                host_steps(steps),
                phases,
                last,
                history,
                proof,
            ));
        },
    }
}

/// An opening with a processor provider meets the relation of the host's own, and the
/// provider has folded `initial_k` times and given its planes away.
pub proof fn law_processor_opening_is_a_host_proof<M, P, A, D>(
    kernels: PcsKernels<M, P, A, D>,
    config: ProverConfig,
    f: Seq<F128>,
    basis: Seq<F128>,
    target: F128,
    codeword: Seq<F128>,
    tree: Seq<Digest>,
    given: Option<SumcheckMessage>,
    history_before: Seq<Event>,
    calls_before: Seq<PrefixCall>,
    history: Seq<Event>,
    calls: Seq<PrefixCall>,
    res: Result<LigeritoProof, String>,
) where
    M: Fn(&[F128], usize, usize, usize) -> LigeroWitness,
    P: Fn(&[Digest], usize, &[usize]) -> Vec<Digest>,
    A: Fn(usize, usize, &[Vec<F128>], &[F128], &[usize], &[F128]) -> (Vec<F128>, F128),
    D: Fn(usize, &[Vec<F128>], &[F128], &[usize], &[F128]) -> (Vec<F128>, F128),

    requires
        is_power(f.len()),
        basis.len() == f.len(),
        config.initial_k <= log2_of(f.len()),
        begun_outcome(
            kernels,
            config,
            f,
            basis,
            target,
            codeword,
            tree,
            given,
            history_before,
            calls_before,
            history,
            calls,
            res,
        ),
        prefix_log_fits(calls, StartedFault::Absent),
        prefix_state(calls_before).advances + config.initial_k <= usize::MAX,
        prefix_state(calls_before).finishes < usize::MAX,
    ensures
        res is Ok,
        host_completed(
            kernels,
            config,
            log2_of(f.len()) as int,
            host_start(
                history_before,
                f,
                basis,
                target,
                tree.last(),
                first_message(f, basis, given),
            ),
            codeword,
            tree,
            history,
            res->Ok_0,
        ),
        prefix_state(calls).advances == prefix_state(calls_before).advances + config.initial_k,
        prefix_state(calls).finishes == prefix_state(calls_before).finishes + 1,
        prefix_state(calls).a == Seq::<F128>::empty(),
        prefix_state(calls).b == Seq::<F128>::empty(),
{
    let begun = calls_before.push(PrefixCall::Begin { f, basis, refusal: None });
    assert(begun.drop_last() =~= calls_before);
    if res is Err && calls == calls_before.push(
        PrefixCall::Begin { f, basis, refusal: Some(res->Err_0) },
    ) {
        assert(calls.drop_last() =~= calls_before);
        assert(false);
    }
    law_processor_folds_give_the_host_proof(
        kernels,
        config,
        log2_of(f.len()) as int,
        f,
        basis,
        target,
        codeword,
        tree,
        first_message(f, basis, given),
        history_before,
        begun,
        history,
        calls,
        res,
    );
}

/// An opening with a processor provider is the host's own: it succeeds, the provider
/// has folded `initial_k` times, and with equal answers of transcript and kernels the
/// proof and the transcript are those of the recursive prover.
pub proof fn law_resident_opening_is_the_hosts<M, P, A, D>(
    kernels: PcsKernels<M, P, A, D>,
    config: ProverConfig,
    f: Seq<F128>,
    basis: Seq<F128>,
    target: F128,
    codeword: Seq<F128>,
    tree: Seq<Digest>,
    given: Option<SumcheckMessage>,
    history_before: Seq<Event>,
    calls_before: Seq<PrefixCall>,
    history: Seq<Event>,
    calls: Seq<PrefixCall>,
    res: Result<LigeritoProof, String>,
    host_history: Seq<Event>,
    host_proof: LigeritoProof,
    rule: Rule,
) where
    M: Fn(&[F128], usize, usize, usize) -> LigeroWitness,
    P: Fn(&[Digest], usize, &[usize]) -> Vec<Digest>,
    A: Fn(usize, usize, &[Vec<F128>], &[F128], &[usize], &[F128]) -> (Vec<F128>, F128),
    D: Fn(usize, &[Vec<F128>], &[F128], &[usize], &[F128]) -> (Vec<F128>, F128),

    requires
        kernels_functional(kernels),
        config.recursive_steps >= 1,
        is_power(f.len()),
        basis.len() == f.len(),
        config.initial_k <= log2_of(f.len()),
        begun_outcome(
            kernels,
            config,
            f,
            basis,
            target,
            codeword,
            tree,
            given,
            history_before,
            calls_before,
            history,
            calls,
            res,
        ),
        prefix_log_fits(calls, StartedFault::Absent),
        prefix_state(calls_before).advances + config.initial_k <= usize::MAX,
        prefix_state(calls_before).finishes < usize::MAX,
        host_completed(
            kernels,
            config,
            log2_of(f.len()) as int,
            host_start(
                history_before,
                f,
                basis,
                target,
                tree.last(),
                first_message(f, basis, given),
            ),
            codeword,
            tree,
            host_history,
            host_proof,
        ),
        obeys(history, history_before.len(), rule),
        obeys(host_history, history_before.len(), rule),
    ensures
        res is Ok,
        res->Ok_0@ == host_proof@,
        history == host_history,
        prefix_state(calls).advances == prefix_state(calls_before).advances + config.initial_k,
        prefix_state(calls).finishes == prefix_state(calls_before).finishes + 1,
        prefix_state(calls).a == Seq::<F128>::empty(),
        prefix_state(calls).b == Seq::<F128>::empty(),
{
    let log_n = log2_of(f.len()) as int;
    let first = first_message(f, basis, given);
    law_processor_opening_is_a_host_proof(
        kernels,
        config,
        f,
        basis,
        target,
        codeword,
        tree,
        given,
        history_before,
        calls_before,
        history,
        calls,
        res,
    );
    law_host_proof_is_unique(
        kernels,
        config,
        log_n,
        host_start(history_before, f, basis, target, tree.last(), first),
        codeword,
        tree,
        history,
        res->Ok_0,
        host_history,
        host_proof,
        history_before.len(),
        rule,
    );
}

/// An opening with a processor provider that holds its planes from the start is the
/// host's own, like one whose planes are handed over.
pub proof fn law_started_opening_is_the_hosts<M, P, A, D>(
    kernels: PcsKernels<M, P, A, D>,
    config: ProverConfig,
    f: Seq<F128>,
    basis: Seq<F128>,
    target: F128,
    codeword: Seq<F128>,
    tree: Seq<Digest>,
    first: SumcheckMessage,
    history_before: Seq<Event>,
    calls_before: Seq<PrefixCall>,
    history: Seq<Event>,
    calls: Seq<PrefixCall>,
    res: Result<LigeritoProof, String>,
    host_history: Seq<Event>,
    host_proof: LigeritoProof,
    rule: Rule,
) where
    M: Fn(&[F128], usize, usize, usize) -> LigeroWitness,
    P: Fn(&[Digest], usize, &[usize]) -> Vec<Digest>,
    A: Fn(usize, usize, &[Vec<F128>], &[F128], &[usize], &[F128]) -> (Vec<F128>, F128),
    D: Fn(usize, &[Vec<F128>], &[F128], &[usize], &[F128]) -> (Vec<F128>, F128),

    requires
        kernels_functional(kernels),
        config.recursive_steps >= 1,
        is_power(f.len()),
        basis.len() == f.len(),
        config.initial_k <= log2_of(f.len()),
        prefix_outcome(
            kernels,
            config,
            log2_of(f.len()) as int,
            first_oracle(config, log2_of(f.len()) as int, codeword, tree),
            prefix_start(history_before, target, tree.last(), first),
            calls_before,
            history,
            calls,
            res,
        ),
        prefix_log_fits(calls, StartedFault::Absent),
        prefix_state(calls_before).a == f,
        prefix_state(calls_before).b == basis,
        prefix_state(calls_before).advances + config.initial_k <= usize::MAX,
        prefix_state(calls_before).finishes < usize::MAX,
        host_completed(
            kernels,
            config,
            log2_of(f.len()) as int,
            host_start(history_before, f, basis, target, tree.last(), first),
            codeword,
            tree,
            host_history,
            host_proof,
        ),
        obeys(history, history_before.len(), rule),
        obeys(host_history, history_before.len(), rule),
    ensures
        res is Ok,
        res->Ok_0@ == host_proof@,
        history == host_history,
        prefix_state(calls).advances == prefix_state(calls_before).advances + config.initial_k,
        prefix_state(calls).finishes == prefix_state(calls_before).finishes + 1,
        prefix_state(calls).a == Seq::<F128>::empty(),
        prefix_state(calls).b == Seq::<F128>::empty(),
{
    let log_n = log2_of(f.len()) as int;
    law_processor_folds_give_the_host_proof(
        kernels,
        config,
        log_n,
        f,
        basis,
        target,
        codeword,
        tree,
        first,
        history_before,
        calls_before,
        history,
        calls,
        res,
    );
    law_host_proof_is_unique(
        kernels,
        config,
        log_n,
        host_start(history_before, f, basis, target, tree.last(), first),
        codeword,
        tree,
        history,
        res->Ok_0,
        host_history,
        host_proof,
        history_before.len(),
        rule,
    );
}

/// An opening of combined claims holds the proof of the recursive prover on the same
/// basis, target and first message.
pub proof fn law_opening_holds_the_recursive_proof<M, P, A, D>(
    kernels: PcsKernels<M, P, A, D>,
    config: ProverConfig,
    params: PcsParams,
    w: Seq<F128>,
    codeword: Seq<F128>,
    tree: Seq<Digest>,
    start: Session,
    history: Seq<Event>,
    opened: LigeritoProof,
    host_history: Seq<Event>,
    host_proof: LigeritoProof,
    from: nat,
    rule: Rule,
) where
    M: Fn(&[F128], usize, usize, usize) -> LigeroWitness,
    P: Fn(&[Digest], usize, &[usize]) -> Vec<Digest>,
    A: Fn(usize, usize, &[Vec<F128>], &[F128], &[usize], &[F128]) -> (Vec<F128>, F128),
    D: Fn(usize, &[Vec<F128>], &[F128], &[usize], &[F128]) -> (Vec<F128>, F128),

    requires
        kernels_functional(kernels),
        config.recursive_steps >= 1,
        geometry_fits(params, config, w.len(), codeword.len(), tree.len()),
        host_completed(
            kernels,
            config,
            params.m - LOG_PACKING,
            start,
            codeword,
            tree,
            history,
            opened,
        ),
        host_completed(
            kernels,
            config,
            log2_of(w.len()) as int,
            start,
            codeword,
            tree,
            host_history,
            host_proof,
        ),
        from <= start.events.len(),
        obeys(history, from, rule),
        obeys(host_history, from, rule),
    ensures
        opened@ == host_proof@,
        history == host_history,
{
    law_log2_of_power((params.m - LOG_PACKING) as nat);
    law_host_proof_is_unique(
        kernels,
        config,
        params.m - LOG_PACKING,
        start,
        codeword,
        tree,
        history,
        opened,
        host_history,
        host_proof,
        from,
        rule,
    );
}

} // verus!
