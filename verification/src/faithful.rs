//! Providers that answer as the host would: what is then proved is what the host
//! would have proved alone.
use crate::cpu_prefix::{common_message, law_common_message};
use crate::extension::{claim, claim_terms, extension, law_folds_compose, law_folds_evaluate};
use crate::field::F128;
use crate::host::first_oracle;
use crate::ligerito::{
    after_folds, challenges, entry, log2_of, taper, Digest, FoldStep, LastRun, LigeritoProof,
    LigeroWitness, PcsKernels, PhaseRun, ProverConfig,
};
use crate::multilinear::{fold, round_message, sum_upto};
use crate::opening::{host_proved, host_start};
use crate::padding::{PaddingSpec, K_SKIP};
use crate::resident_ab::{outcome, proved};
use crate::resident_prefix::{
    after_provided, begun_outcome, prefix_proved, prefix_start, prefix_stopped, provider_challenges,
    with_planes, PrefixCall, ProviderStep,
};
use crate::sumcheck::{message_of, SumcheckMessage};
use crate::transcript::Event;
use crate::univariate::UniSkipFoldTable;
use crate::zerocheck::{
    resident_rounds, round_point, tail_plane, AbCall, AbRun, ProtocolConstants, Round1Mode,
    Round1Output, SkipKernels, ZerocheckClaim, ZerocheckProof, TAIL_LEN,
};
use crate::zerocheck_host::host_message;
use vstd::arithmetic::power2::pow2;
use vstd::prelude::*;

verus! {

/// An AB provider that computed what the host would have computed from the planes
/// `a` and `b`: every message, and the planes at the tail boundary.
pub open spec fn ab_faithful(
    run: AbRun,
    constants: ProtocolConstants,
    m: usize,
    a: Seq<F128>,
    b: Seq<F128>,
) -> bool {
    let k = resident_rounds(m);
    &&& forall|i: int|
        0 <= i <= k ==> #[trigger] run.messages[i] == host_message(
            a,
            b,
            run.point(constants),
            run.rhos,
            i,
        )
    &&& run.a_tail == tail_plane(a, run.rhos, 0, k)
    &&& run.b_tail == tail_plane(b, run.rhos, 0, k)
}

/// With a provider that answers faithfully, every message of the proof is that of
/// the host, the evaluations are the values of the two planes at the point of the
/// challenges, and the zerocheck sum that is left at the end is their product.
pub proof fn law_faithful_ab_provider(
    run: AbRun,
    constants: ProtocolConstants,
    a_bytes: Seq<u8>,
    b_bytes: Seq<u8>,
    m: usize,
    padding: PaddingSpec,
    h0: Seq<Event>,
    c0: Seq<AbCall>,
    history: Seq<Event>,
    calls: Seq<AbCall>,
    proof: ZerocheckProof,
    answer: ZerocheckClaim,
    a: Seq<F128>,
    b: Seq<F128>,
)
    requires
        19 <= m,
        proved(
            run,
            constants,
            a_bytes,
            b_bytes,
            m,
            padding,
            h0,
            c0,
            history,
            calls,
            proof,
            answer,
        ),
        a.len() == pow2((m - K_SKIP) as nat),
        b.len() == a.len(),
        ab_faithful(run, constants, m, a, b),
    ensures
        forall|i: int|
            0 <= i < m - K_SKIP ==> #[trigger] proof.multilinear_rounds@[i] == host_message(
                a,
                b,
                run.point(constants),
                answer.mlv_challenges@,
                i,
            ),
        answer.a_eval == extension(a, answer.mlv_challenges@),
        answer.b_eval == extension(b, answer.mlv_challenges@),
        claim(
            tail_plane(a, answer.mlv_challenges@, 0, m - K_SKIP),
            tail_plane(b, answer.mlv_challenges@, 0, m - K_SKIP),
            Seq::empty(),
        ) == answer.a_eval * answer.b_eval,
{
    let n = m - K_SKIP;
    let k = resident_rounds(m);
    let rhos = run.rhos;
    assert forall|i: int| 0 <= i < n implies #[trigger] proof.multilinear_rounds@[i]
        == host_message(a, b, run.point(constants), rhos, i) by {
        if i <= k {
            assert(run.messages[i] == host_message(a, b, run.point(constants), rhos, i));
        } else {
            law_folds_compose(a, rhos, 0, k, i);
            law_folds_compose(b, rhos, 0, k, i);
            assert(run.messages[i] == round_message(
                tail_plane(run.a_tail, rhos, k, i),
                tail_plane(run.b_tail, rhos, k, i),
                round_point(run.point(constants), i),
            ));
        }
    }
    law_folds_compose(a, rhos, 0, k, n);
    law_folds_compose(b, rhos, 0, k, n);
    law_folds_evaluate(a, rhos, 0, n);
    law_folds_evaluate(b, rhos, 0, n);
    assert(rhos.subrange(0, n) =~= rhos);
    let pa = tail_plane(a, rhos, 0, n);
    let pb = tail_plane(b, rhos, 0, n);
    let terms = claim_terms(pa, pb, Seq::empty());
    assert(sum_upto(terms, 1) == sum_upto(terms, 0) + terms(0));
    crate::field::law_add(pa[0] * pb[0], F128::zero(), F128::zero());
    crate::field::law_mul_units(pa[0] * pb[0]);
}

/// A plane folded at one challenge after the other.
pub open spec fn folded_through(plane: Seq<F128>, rs: Seq<F128>) -> Seq<F128>
    decreases rs.len(),
{
    if rs.len() == 0 {
        plane
    } else {
        fold(folded_through(plane, rs.drop_last()), rs.last())
    }
}

/// A provider of the first folds that answered each with the message of the planes
/// as folded so far.
pub open spec fn prefix_faithful(
    f: Seq<F128>,
    basis: Seq<F128>,
    steps: Seq<ProviderStep>,
) -> bool
    decreases steps.len(),
{
    if steps.len() == 0 {
        true
    } else {
        let rs = provider_challenges(steps);
        &&& prefix_faithful(f, basis, steps.drop_last())
        &&& steps.last().message == message_of(folded_through(f, rs), folded_through(basis, rs))
    }
}

/// The folds of a provider as folds of the host.
pub open spec fn host_steps(steps: Seq<ProviderStep>) -> Seq<FoldStep> {
    Seq::new(steps.len(), |i: int| FoldStep { nonce: steps[i].nonce, r: steps[i].r })
}

/// Folds by a faithful provider that hands over its planes leave the session that
/// folds by the host would have left.
pub proof fn law_faithful_folds(
    history: Seq<Event>,
    f: Seq<F128>,
    basis: Seq<F128>,
    target: F128,
    root: Digest,
    first: SumcheckMessage,
    bits: u32,
    steps: Seq<ProviderStep>,
)
    requires
        prefix_faithful(f, basis, steps),
    ensures
        with_planes(
            after_provided(prefix_start(history, target, root, first), bits, steps),
            folded_through(f, provider_challenges(steps)),
            folded_through(basis, provider_challenges(steps)),
        ) == after_folds(
            host_start(history, f, basis, target, root, first),
            bits,
            host_steps(steps),
        ),
        provider_challenges(steps) == challenges(host_steps(steps)),
    decreases steps.len(),
{
    assert(provider_challenges(steps) =~= challenges(host_steps(steps)));
    if steps.len() > 0 {
        let before = steps.drop_last();
        law_faithful_folds(history, f, basis, target, root, first, bits, before);
        assert(provider_challenges(steps).drop_last() =~= provider_challenges(before));
        assert(host_steps(steps).drop_last() =~= host_steps(before));
    }
}

/// If a provider answers faithfully and then fails, the transcript stops where the
/// host's own would stand after as many folds: with the next challenge drawn if a
/// fold failed, and with no more than the folds otherwise.
pub proof fn law_failed_prefix_stops_on_the_host_transcript(
    history_before: Seq<Event>,
    f: Seq<F128>,
    basis: Seq<F128>,
    target: F128,
    root: Digest,
    first: SumcheckMessage,
    bits: u32,
    k: usize,
    tail: nat,
    calls_before: Seq<PrefixCall>,
    steps: Seq<ProviderStep>,
    pending: FoldStep,
    history: Seq<Event>,
    calls: Seq<PrefixCall>,
    e: String,
)
    requires
        prefix_stopped(
            prefix_start(history_before, target, root, first),
            bits,
            k,
            tail,
            calls_before,
            steps,
            pending,
            history,
            calls,
            e,
        ),
        prefix_faithful(f, basis, steps),
    ensures
        ({
            let on_host = after_folds(
                host_start(history_before, f, basis, target, root, first),
                bits,
                host_steps(steps),
            );
            history == (if steps.len() < k {
                on_host.challenged(taper(bits, steps.len() as int), pending).events
            } else {
                on_host.events
            })
        }),
{
    law_faithful_folds(history_before, f, basis, target, root, first, bits, steps);
}

/// With a faithful provider that hands over its planes, the proof and the
/// transcript are those of the host alone.
pub proof fn law_faithful_prefix_provider<M, P, A, D>(
    kernels: PcsKernels<M, P, A, D>,
    config: ProverConfig,
    log_n: int,
    codeword: Seq<F128>,
    tree: Seq<Digest>,
    history_before: Seq<Event>,
    f: Seq<F128>,
    basis: Seq<F128>,
    target: F128,
    first: SumcheckMessage,
    calls_before: Seq<PrefixCall>,
    steps: Seq<ProviderStep>,
    planes: (Seq<F128>, Seq<F128>),
    phases: Seq<PhaseRun>,
    last: LastRun,
    history: Seq<Event>,
    calls: Seq<PrefixCall>,
    proof: LigeritoProof,
) where
    M: Fn(&[F128], usize, usize, usize) -> LigeroWitness,
    P: Fn(&[Digest], usize, &[usize]) -> Vec<Digest>,
    A: Fn(usize, usize, &[Vec<F128>], &[F128], &[usize], &[F128]) -> (Vec<F128>, F128),
    D: Fn(usize, &[Vec<F128>], &[F128], &[usize], &[F128]) -> (Vec<F128>, F128),

    requires
        prefix_proved(
            kernels,
            config,
            log_n,
            first_oracle(config, log_n, codeword, tree),
            prefix_start(history_before, target, tree.last(), first),
            calls_before,
            steps,
            planes,
            phases,
            last,
            history,
            calls,
            proof,
        ),
        prefix_faithful(f, basis, steps),
        planes.0 == folded_through(f, provider_challenges(steps)),
        planes.1 == folded_through(basis, provider_challenges(steps)),
    ensures
        host_proved(
            kernels,
            config,
            log_n,
            host_start(history_before, f, basis, target, tree.last(), first),
            codeword,
            tree,
            host_steps(steps),
            phases,
            last,
            history,
            proof,
        ),
{
    law_faithful_folds(
        history_before,
        f,
        basis,
        target,
        tree.last(),
        first,
        entry(config.fold_grinding_bits@, 0) as u32,
        steps,
    );
}

proof fn lemma_folded_lengths(a: Seq<F128>, b: Seq<F128>, rs: Seq<F128>)
    requires
        a.len() == b.len(),
    ensures
        folded_through(a, rs).len() == folded_through(b, rs).len(),
    decreases rs.len(),
{
    if rs.len() > 0 {
        lemma_folded_lengths(a, b, rs.drop_last());
    }
}

/// A provider that folds its planes and answers with the message of the pairs that
/// they have, as the processor providers do, stays faithful.
pub proof fn law_folding_provider_stays_faithful(
    f: Seq<F128>,
    basis: Seq<F128>,
    steps: Seq<ProviderStep>,
    step: ProviderStep,
)
    requires
        f.len() == basis.len(),
        prefix_faithful(f, basis, steps),
        step.message == common_message(
            fold(folded_through(f, provider_challenges(steps)), step.r),
            fold(folded_through(basis, provider_challenges(steps)), step.r),
        ),
    ensures
        prefix_faithful(f, basis, steps.push(step)),
        folded_through(f, provider_challenges(steps.push(step))) == fold(
            folded_through(f, provider_challenges(steps)),
            step.r,
        ),
        folded_through(basis, provider_challenges(steps.push(step))) == fold(
            folded_through(basis, provider_challenges(steps)),
            step.r,
        ),
{
    let next = steps.push(step);
    assert(next.drop_last() =~= steps);
    assert(provider_challenges(next).drop_last() =~= provider_challenges(steps));
    lemma_folded_lengths(f, basis, provider_challenges(steps));
    law_common_message(
        fold(folded_through(f, provider_challenges(steps)), step.r),
        fold(folded_through(basis, provider_challenges(steps)), step.r),
    );
}

/// A call of an AB provider that went well.
pub open spec fn ab_answered(call: AbCall) -> bool {
    match call {
        AbCall::Produce { reply, .. } => reply is Ok,
        AbCall::Advance { reply, .. } => reply is Ok,
        AbCall::Finish { planes } => planes matches Ok(p) && p.0.len() == TAIL_LEN && p.1.len()
            == TAIL_LEN,
    }
}

/// An admitted zerocheck attempt succeeds unless the provider fails: if every call
/// went well, there is a proof.
pub proof fn law_answering_ab_provider_gives_a_proof<R, I, T>(
    kernels: SkipKernels<R, I, T>,
    mode: Option<Round1Mode>,
    a: &[u8],
    b: &[u8],
    c: &[u8],
    m: usize,
    padding: &PaddingSpec,
    h0: Seq<Event>,
    c0: Seq<AbCall>,
    history: Seq<Event>,
    calls: Seq<AbCall>,
    res: Result<(ZerocheckProof, ZerocheckClaim, Option<Vec<F128>>), String>,
) where
    R: Fn(Option<Round1Mode>, &[u8], &[u8], &[u8], usize, &[F128], &PaddingSpec) -> Round1Output,
    I: Fn(&[F128], F128) -> F128,
    T: Fn(F128) -> UniSkipFoldTable,

    requires
        outcome(kernels, mode, a, b, c, m, padding, h0, c0, history, calls, res),
        forall|i: int| c0.len() <= i < calls.len() ==> ab_answered(#[trigger] calls[i]),
    ensures
        res is Ok,
{
    if let Err(e) = res {
        assert(calls.len() > c0.len());
        assert(!ab_answered(calls[calls.len() - 1]));
    }
}

/// A call of a provider of first folds that went well.
pub open spec fn prefix_answered(call: PrefixCall, tail: nat) -> bool {
    match call {
        PrefixCall::Begin { refusal, .. } => refusal is None,
        PrefixCall::Advance { reply, .. } => reply is Ok,
        PrefixCall::Finish { planes } => planes matches Ok(p) && p.0.len() == tail && p.1.len()
            == tail,
    }
}

/// An admitted opening succeeds unless the provider fails: if every call went well,
/// there is a proof.
pub proof fn law_answering_prefix_provider_gives_a_proof<M, P, A, D>(
    kernels: PcsKernels<M, P, A, D>,
    config: ProverConfig,
    f: Seq<F128>,
    basis: Seq<F128>,
    target: F128,
    codeword: Seq<F128>,
    tree: Seq<Digest>,
    given: Option<SumcheckMessage>,
    history_before: Seq<Event>,
    calls_before: Seq<PrefixCall>,
    history: Seq<Event>,
    calls: Seq<PrefixCall>,
    res: Result<LigeritoProof, String>,
) where
    M: Fn(&[F128], usize, usize, usize) -> LigeroWitness,
    P: Fn(&[Digest], usize, &[usize]) -> Vec<Digest>,
    A: Fn(usize, usize, &[Vec<F128>], &[F128], &[usize], &[F128]) -> (Vec<F128>, F128),
    D: Fn(usize, &[Vec<F128>], &[F128], &[usize], &[F128]) -> (Vec<F128>, F128),

    requires
        begun_outcome(
            kernels,
            config,
            f,
            basis,
            target,
            codeword,
            tree,
            given,
            history_before,
            calls_before,
            history,
            calls,
            res,
        ),
        forall|i: int|
            calls_before.len() <= i < calls.len() ==> prefix_answered(
                #[trigger] calls[i],
                pow2((log2_of(f.len()) - config.initial_k) as nat),
            ),
    ensures
        res is Ok,
{
    if let Err(e) = res {
        assert(calls.len() > calls_before.len());
        assert(!prefix_answered(
            calls[calls.len() - 1],
            pow2((log2_of(f.len()) - config.initial_k) as nat),
        ));
    }
}

} // verus!
