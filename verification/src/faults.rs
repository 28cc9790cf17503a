//! What a faulty processor provider does to a run: it fails, with the error of its fault
//! and the counters that the fault leaves.
use crate::cpu_ab::{ab_log_fits, ab_state, lemma_ab_log_push, Fault};
use crate::cpu_prefix::{prefix_log_fits, prefix_state, StartedFault};
use crate::field::F128;
use crate::ligerito::{
    entry, Digest, FoldStep, LastRun, LigeritoProof, LigeroWitness, Oracle, PcsKernels, PhaseRun,
    ProverConfig, Session,
};
use crate::multilinear::fold;
use crate::padding::{PaddingSpec, K_SKIP};
use crate::parity::{law_processor_log_is_faithful, lemma_folded_length};
use crate::resident_ab::{
    abandoned, kernels_answered, lemma_row_bytes, outcome, proved, resident_failed,
    resident_failure,
};
use crate::resident_prefix::{
    fold_calls, prefix_failed, prefix_outcome, prefix_proved, prefix_stopped, provider_challenges,
    PrefixCall, ProviderStep,
};
use crate::rounds::planes_match;
use crate::transcript::Event;
use crate::univariate::UniSkipFoldTable;
use crate::zerocheck::{
    advance_calls, resident_rounds, round_point, AbCall, AbRun, Round1Mode, Round1Output,
    SkipKernels, ZerocheckClaim, ZerocheckProof, TAIL_LEN,
};
use crate::zerocheck_parity::{
    law_processor_ab_log_is_faithful, lemma_ab_log_prefix, lemma_tail_length,
};
use vstd::arithmetic::power2::{lemma2_to64, lemma_pow2_pos, lemma_pow2_unfold, pow2};
use vstd::prelude::*;

verus! {

/// The error that a fault of the AB provider leads to.
pub open spec fn fault_text(fault: Fault) -> Seq<char> {
    match fault {
        Fault::Produce => "injected produce"@,
        Fault::Advance => "injected advance"@,
        Fault::Finish => "injected finish"@,
        _ => "backend tail geometry"@,
    }
}

/// How often a provider with a fault is asked to fold before the run ends.
pub open spec fn faulty_folds(fault: Fault, rounds: int) -> int {
    match fault {
        Fault::Produce => 0,
        Fault::Advance => 1,
        _ => rounds,
    }
}

/// How a run ends that a fault brings down after the opening call.
proof fn lemma_faulty_end(
    e: String,
    m: usize,
    point: Seq<F128>,
    messages: Seq<(F128, F128)>,
    rhos: Seq<F128>,
    before: Seq<AbCall>,
    history: Seq<Event>,
    calls: Seq<AbCall>,
    fault: Fault,
)
    requires
        19 <= m,
        point.len() == m,
        fault != Fault::Absent,
        fault != Fault::Produce,
        ab_log_fits(before + calls, fault),
        ab_state(before, fault).advanced + resident_rounds(m) <= usize::MAX,
        ab_state(before, fault).finished < usize::MAX,
        ab_state(before, fault).a.len() == pow2((m - K_SKIP) as nat),
        ab_state(before, fault).b.len() == pow2((m - K_SKIP) as nat),
        resident_failure(e, resident_rounds(m), point, messages, rhos, history, calls),
    ensures
        e@ == fault_text(fault),
        ab_state(before + calls, fault).produced == ab_state(before, fault).produced,
        ab_state(before + calls, fault).advanced == ab_state(before, fault).advanced
            + faulty_folds(fault, resident_rounds(m)),
        ab_state(before + calls, fault).finished == ab_state(before, fault).finished + (if fault
            == Fault::Advance {
            0int
        } else {
            1
        }),
{
    let n = (m - K_SKIP) as nat;
    let rounds = resident_rounds(m);
    let start = ab_state(before, fault);
    let log = before + calls;
    let j: int = if calls.last() is Advance {
        rhos.len() - 1
    } else {
        rounds
    };
    let fewer = before + advance_calls(point, messages, rhos, j);
    assert(log.drop_last() =~= fewer);
    assert(log.last() == calls.last());
    law_processor_ab_log_is_faithful(before, point, messages, rhos, j, fault);
    lemma_tail_length(start.a, rhos, n, j);
    lemma_tail_length(start.b, rhos, n, j);
    let state = ab_state(fewer, fault);
    assert(state.fits(calls.last(), fault));
    if fault == Fault::Advance && j > 0 {
        lemma_first_fold_answered(before, point, messages, rhos, j, fault);
        assert(false);
    }
    if calls.last() is Advance && fault != Fault::Advance {
        lemma_pow2_unfold((n - j) as nat);
        let next = state.step(calls.last(), fault);
        assert(next.a == fold(state.a, rhos[j]));
        assert(round_point(point, j + 1).len() == n - j - 1);
        assert(planes_match(next.a, next.b, round_point(point, j + 1)));
        assert(false);
    }
    if calls.last() is Finish {
        lemma2_to64();
        assert(state.a.len() == TAIL_LEN && state.b.len() == TAIL_LEN);
    }
}

/// A provider that answered a fold does not have the fault of failing at folds.
proof fn lemma_first_fold_answered(
    before: Seq<AbCall>,
    point: Seq<F128>,
    messages: Seq<(F128, F128)>,
    rhos: Seq<F128>,
    j: int,
    fault: Fault,
)
    requires
        1 <= j,
        ab_log_fits(before + advance_calls(point, messages, rhos, j), fault),
    ensures
        fault != Fault::Advance,
{
    let log = before + advance_calls(point, messages, rhos, j);
    assert(log.last() == AbCall::Advance {
        rho: rhos[j - 1],
        r: round_point(point, j),
        reply: Ok(messages[j]),
    });
    assert(ab_state(log.drop_last(), fault).fits(log.last(), fault));
}

/// A faulty processor provider brings every zerocheck run down: with the error of its
/// fault, having produced once, folded as often as the fault lets it, and finished once
/// unless the fault comes before that.
pub proof fn law_faulty_ab_provider_fails<R, I, T>(
    kernels: SkipKernels<R, I, T>,
    mode: Option<Round1Mode>,
    a: &[u8],
    b: &[u8],
    c: &[u8],
    m: usize,
    padding: &PaddingSpec,
    h0: Seq<Event>,
    c0: Seq<AbCall>,
    history: Seq<Event>,
    calls: Seq<AbCall>,
    res: Result<(ZerocheckProof, ZerocheckClaim, Option<Vec<F128>>), String>,
    fault: Fault,
) where
    R: Fn(Option<Round1Mode>, &[u8], &[u8], &[u8], usize, &[F128], &PaddingSpec) -> Round1Output,
    I: Fn(&[F128], F128) -> F128,
    T: Fn(F128) -> UniSkipFoldTable,

    requires
        19 <= m,
        a@.len() == pow2(m as nat) / 8,
        b@.len() == a@.len(),
        fault != Fault::Absent,
        outcome(kernels, mode, a, b, c, m, padding, h0, c0, history, calls, res),
        ab_log_fits(calls, fault),
        ab_state(c0, fault).produced < usize::MAX,
        ab_state(c0, fault).advanced + resident_rounds(m) <= usize::MAX,
        ab_state(c0, fault).finished < usize::MAX,
    ensures
        res matches Err(e) && e@ == fault_text(fault),
        ({
            let start = ab_state(c0, fault);
            let end = ab_state(calls, fault);
            let finishes = fault != Fault::Produce && fault != Fault::Advance;
            &&& end.produced == start.produced + 1
            &&& end.advanced == start.advanced + faulty_folds(fault, resident_rounds(m))
            &&& end.finished == start.finished + (if finishes {
                1int
            } else {
                0
            })
        }),
{
    let k = kernels.constants;
    let rounds = resident_rounds(m);
    let run = choose|run: AbRun|
        {
            &&& #[trigger] kernels_answered(kernels, mode, a, b, c, m, padding, run)
            &&& match res {
                Ok((proof, claim, s_hat_v)) => {
                    &&& proved(
                        run,
                        k,
                        a@,
                        b@,
                        m,
                        *padding,
                        h0,
                        c0,
                        history,
                        calls,
                        proof,
                        claim,
                    )
                    &&& s_hat_v == (if mode is Some {
                        Some(run.round1.s_hat_v)
                    } else {
                        None
                    })
                },
                Err(e) => abandoned(run, k, a@, b@, m, *padding, h0, c0, history, calls, e),
            }
        };
    let point = run.point(k);
    assert(point.len() == m);
    lemma_row_bytes(m as nat);
    let produce = run.produce_call(k, a@, b@, m, *padding, Ok(run.messages[0]));
    let before = c0.push(produce);
    lemma_ab_log_push(c0, produce, fault);
    match res {
        Ok((proof, claim, s_hat_v)) => {
            let folded = before + advance_calls(point, run.messages, run.rhos, rounds);
            let finish = AbCall::Finish { planes: Ok((run.a_tail, run.b_tail)) };
            assert(calls =~= folded.push(finish));
            lemma_ab_log_push(folded, finish, fault);
            lemma_ab_log_prefix(before, calls, fault);
            lemma_first_fold_answered(before, point, run.messages, run.rhos, rounds, fault);
            law_processor_ab_log_is_faithful(
                before,
                point,
                run.messages,
                run.rhos,
                rounds,
                fault,
            );
            let n = (m - K_SKIP) as nat;
            lemma_tail_length(ab_state(before, fault).a, run.rhos, n, rounds);
            lemma_tail_length(ab_state(before, fault).b, run.rhos, n, rounds);
            lemma2_to64();
            assert(false);
        },
        Err(e) => {
            let refused = run.produce_call(k, a@, b@, m, *padding, Err(e));
            lemma_ab_log_push(c0, refused, fault);
            if calls != c0.push(refused) {
                assert(resident_failed(
                    e,
                    rounds,
                    point,
                    run.messages,
                    run.rhos,
                    h0 + run.head_events(k),
                    before,
                    history,
                    calls,
                ));
                let (more, more_calls) = choose|more: Seq<Event>, more_calls: Seq<AbCall>|
                    {
                        &&& history == h0 + run.head_events(k) + more
                        &&& calls == before + more_calls
                        &&& #[trigger] resident_failure(
                            e,
                            rounds,
                            point,
                            run.messages,
                            run.rhos,
                            more,
                            more_calls,
                        )
                    };
                assert(before =~= calls.subrange(0, before.len() as int));
                lemma_ab_log_prefix(before, calls, fault);
                lemma_faulty_end(
                    e,
                    m,
                    point,
                    run.messages,
                    run.rhos,
                    before,
                    more,
                    more_calls,
                    fault,
                );
            }
        },
    }
}

/// The error that a fault of a started provider leads to.
pub open spec fn started_fault_text(fault: StartedFault) -> Seq<char> {
    match fault {
        StartedFault::Advance => "advance"@,
        StartedFault::Finish => "finish"@,
        _ => "resident PCS tail shape"@,
    }
}

/// A faulty processor provider brings every opening down that it was let into: with the
/// error of its fault, after two folds if the second one fails, and after all folds and
/// one export otherwise.
pub proof fn law_faulty_started_provider_fails<M, P, A, D>(
    kernels: PcsKernels<M, P, A, D>,
    config: ProverConfig,
    log_n: int,
    first: Oracle,
    s: Session,
    calls_before: Seq<PrefixCall>,
    history: Seq<Event>,
    calls: Seq<PrefixCall>,
    res: Result<LigeritoProof, String>,
    fault: StartedFault,
) where
    M: Fn(&[F128], usize, usize, usize) -> LigeroWitness,
    P: Fn(&[Digest], usize, &[usize]) -> Vec<Digest>,
    A: Fn(usize, usize, &[Vec<F128>], &[F128], &[usize], &[F128]) -> (Vec<F128>, F128),
    D: Fn(usize, &[Vec<F128>], &[F128], &[usize], &[F128]) -> (Vec<F128>, F128),

    requires
        prefix_outcome(kernels, config, log_n, first, s, calls_before, history, calls, res),
        2 <= config.initial_k <= log_n,
        fault != StartedFault::Absent,
        fault != StartedFault::Admission,
        prefix_log_fits(calls, fault),
        prefix_state(calls_before).a.len() == pow2(log_n as nat),
        prefix_state(calls_before).b.len() == pow2(log_n as nat),
        prefix_state(calls_before).advances == 0,
        prefix_state(calls_before).finishes == 0,
    ensures
        res matches Err(e) && e@ == started_fault_text(fault),
        prefix_state(calls).advances == (if fault == StartedFault::Advance {
            2
        } else {
            config.initial_k
        }),
        prefix_state(calls).finishes == (if fault == StartedFault::Advance {
            0int
        } else {
            1
        }),
{
    let start = prefix_state(calls_before);
    let bits = entry(config.fold_grinding_bits@, 0) as u32;
    let k = config.initial_k;
    let tail = pow2((log_n - k) as nat);
    lemma_pow2_pos((log_n - k) as nat);
    let steps: Seq<ProviderStep> = match res {
        Err(e) => {
            assert(prefix_failed(s, bits, k, tail, calls_before, history, calls, e));
            (choose|steps: Seq<ProviderStep>, pending: FoldStep| #[trigger]
                prefix_stopped(
                    s,
                    bits,
                    k,
                    tail,
                    calls_before,
                    steps,
                    pending,
                    history,
                    calls,
                    e,
                )).0
        },
        Ok(proof) => {
            (choose|
                steps: Seq<ProviderStep>,
                planes: (Seq<F128>, Seq<F128>),
                phases: Seq<PhaseRun>,
                last: LastRun,
            | #[trigger]
                prefix_proved(
                    kernels,
                    config,
                    log_n,
                    first,
                    s,
                    calls_before,
                    steps,
                    planes,
                    phases,
                    last,
                    history,
                    calls,
                    proof,
                )).0
        },
    };
    let answered = calls_before + fold_calls(steps);
    assert(calls.drop_last() =~= answered);
    law_processor_log_is_faithful(calls_before, steps, fault);
    lemma_folded_length(start.a, provider_challenges(steps), log_n as nat);
    lemma_folded_length(start.b, provider_challenges(steps), log_n as nat);
    assert(prefix_state(answered).fits(calls.last(), fault));
    if steps.len() >= 2 {
        lemma_second_fold_answered(calls_before, steps, fault);
    }
}

/// A provider that answered two folds does not have the fault of failing at the second.
proof fn lemma_second_fold_answered(
    before: Seq<PrefixCall>,
    steps: Seq<ProviderStep>,
    fault: StartedFault,
)
    requires
        steps.len() >= 2,
        prefix_log_fits(before + fold_calls(steps), fault),
        prefix_state(before).advances == 0,
        prefix_state(before).a.len() == prefix_state(before).b.len(),
    ensures
        fault != StartedFault::Advance,
    decreases steps.len(),
{
    let log = before + fold_calls(steps);
    let fewer = steps.drop_last();
    assert(log.drop_last() =~= before + fold_calls(fewer));
    if steps.len() > 2 {
        lemma_second_fold_answered(before, fewer, fault);
    } else {
        law_processor_log_is_faithful(before, fewer, fault);
        assert(log.last() == PrefixCall::Advance {
            rho: steps.last().r,
            reply: Ok(steps.last().message),
        });
    }
}

} // verus!
