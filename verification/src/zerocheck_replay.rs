//! The transcript and the provider calls of a zerocheck, read off the proof and the claim.
use crate::field::F128;
use crate::padding::{PaddingSpec, K_SKIP};
use crate::resident_ab::{
    abandoned, kernels_answered, proved, resident_failed, resident_failure,
};
use crate::transcript::Event;
use crate::univariate::UniSkipFoldTable;
use crate::zerocheck::{
    advance_calls, resident_rounds, round_events, round_point, scaled, AbCall, AbRun,
    ProtocolConstants, Round1Mode, Round1Output, SkipKernels, ZerocheckClaim, ZerocheckProof,
};
use crate::zerocheck_host::host_run;
use vstd::prelude::*;

verus! {

/// The point that a round is summed at: one, and the coordinates after that of the round.
pub open spec fn point_after(r_rest: Seq<F128>, i: int) -> Seq<F128> {
    seq![F128::one()] + r_rest.skip(i + 1)
}

/// The transcript of a zerocheck of `2^m` bits from event `at` on: the label, 6 challenges for
/// the skipped variables, `m - 13` for the outer ones, the two first-round vectors, the
/// univariate challenge, then for each of the `m - 6` variables two elements and a challenge,
/// and the evaluations of A and B.
pub open spec fn zerocheck_told(
    history: Seq<Event>,
    at: int,
    m: int,
    constants: ProtocolConstants,
    proof: ZerocheckProof,
    claim: ZerocheckClaim,
) -> bool {
    &&& history.len() == at + 3 * m - 10
    &&& history[at] == Event::Label("flock-zerocheck-v0"@)
    &&& history[at + 1] matches Event::SampleVec(r_skip) && r_skip.len() == 6
    &&& history[at + 2] matches Event::SampleVec(r_outer) && r_outer.len() == m - 13
        && claim.r_rest@ == constants.small@ + constants.medium@ + r_outer
    &&& history[at + 3] == Event::ObserveSlice(proof.round1_ab@)
    &&& history[at + 4] == Event::ObserveSlice(proof.round1_c@)
    &&& history[at + 5] == Event::Sample(claim.z)
    &&& proof.multilinear_rounds@.len() == m - 6
    &&& claim.mlv_challenges@.len() == m - 6
    &&& forall|i: int|
        0 <= i < m - 6 ==> #[trigger] round_told(
            history,
            at + 6 + 3 * i,
            proof.multilinear_rounds@[i],
            claim.mlv_challenges@[i],
        )
    &&& history[at + 3 * m - 12] == Event::Observe(proof.final_a_eval)
    &&& history[at + 3 * m - 11] == Event::Observe(proof.final_b_eval)
    &&& claim.a_eval == proof.final_a_eval
    &&& claim.b_eval == proof.final_b_eval
    &&& claim.c_eval == proof.final_c_eval
}

/// One round in the transcript, from event `at` on.
pub open spec fn round_told(
    history: Seq<Event>,
    at: int,
    message: (F128, F128),
    rho: F128,
) -> bool {
    &&& history[at] == Event::Observe(message.0)
    &&& history[at + 1] == Event::Observe(message.1)
    &&& history[at + 2] == Event::Sample(rho)
}

/// The events of rounds stand three by three.
proof fn lemma_rounds_placed(
    messages: Seq<(F128, F128)>,
    rhos: Seq<F128>,
    n: int,
    i: int,
)
    requires
        0 <= n,
    ensures
        round_events(messages, rhos, n).len() == 3 * n,
        0 <= i < n ==> {
            let events = round_events(messages, rhos, n);
            &&& events[3 * i] == Event::Observe(messages[i].0)
            &&& events[3 * i + 1] == Event::Observe(messages[i].1)
            &&& events[3 * i + 2] == Event::Sample(rhos[i])
        },
    decreases n,
{
    if n > 0 {
        lemma_rounds_placed(messages, rhos, n - 1, i);
    }
}

proof fn lemma_told(
    run: AbRun,
    constants: ProtocolConstants,
    m: int,
    h0: Seq<Event>,
    history: Seq<Event>,
    proof: ZerocheckProof,
    claim: ZerocheckClaim,
)
    requires
        m >= 13,
        run.r_skip.len() == 6,
        run.r_outer.len() == m - 13,
        run.messages.len() == m - 6,
        run.rhos.len() == m - 6,
        history == h0 + run.events(constants, m - 6).push(Event::Observe(proof.final_a_eval)).push(
            Event::Observe(proof.final_b_eval),
        ),
        proof.round1_ab@ == scaled(constants.c_s, run.round1.ab@),
        proof.round1_c@ == scaled(constants.c_s, run.round1.c@),
        proof.multilinear_rounds@ == run.messages,
        claim.z == run.z,
        claim.mlv_challenges@ == run.rhos,
        claim.r_rest@ == run.point(constants).skip(K_SKIP as int),
        claim.a_eval == proof.final_a_eval,
        claim.b_eval == proof.final_b_eval,
        claim.c_eval == proof.final_c_eval,
    ensures
        zerocheck_told(history, h0.len() as int, m, constants, proof, claim),
{
    let at = h0.len() as int;
    let rounds = round_events(run.messages, run.rhos, m - 6);
    lemma_rounds_placed(run.messages, run.rhos, m - 6, 0);
    assert(claim.r_rest@ =~= constants.small@ + constants.medium@ + run.r_outer);
    let (s, o, ab) = (history[at + 1], history[at + 2], history[at + 3]);
    assert(history[at] == Event::Label("flock-zerocheck-v0"@));
    assert(s == Event::SampleVec(run.r_skip) && o == Event::SampleVec(run.r_outer));
    assert(ab == Event::ObserveSlice(proof.round1_ab@));
    assert(history[at + 4] == Event::ObserveSlice(proof.round1_c@));
    assert(history[at + 5] == Event::Sample(run.z));
    assert forall|i: int| 0 <= i < m - 6 implies #[trigger] round_told(
        history,
        at + 6 + 3 * i,
        proof.multilinear_rounds@[i],
        claim.mlv_challenges@[i],
    ) by {
        lemma_rounds_placed(run.messages, run.rhos, m - 6, i);
        assert(history[at + 6 + 3 * i] == rounds[3 * i]);
        assert(history[at + 6 + 3 * i + 1] == rounds[3 * i + 1]);
        assert(history[at + 6 + 3 * i + 2] == rounds[3 * i + 2]);
    }
}

/// What a zerocheck asked of the kernels: the first-round sums at the full point, which is the
/// sampled part, the fixed ones and the sampled rest; the C vector of the proof at the
/// challenge of the claim; and the tables for that challenge. The first-round vectors of the
/// proof are the answers times the scalar of the protocol, entry by entry.
pub open spec fn kernels_asked<R, I, T>(
    kernels: SkipKernels<R, I, T>,
    mode: Option<Round1Mode>,
    a: &[u8],
    b: &[u8],
    c: &[u8],
    m: usize,
    padding: &PaddingSpec,
    r_skip: Seq<F128>,
    round1: Round1Output,
    table: UniSkipFoldTable,
    proof: ZerocheckProof,
    claim: ZerocheckClaim,
) -> bool where
    R: Fn(Option<Round1Mode>, &[u8], &[u8], &[u8], usize, &[F128], &PaddingSpec) -> Round1Output,
    I: Fn(&[F128], F128) -> F128,
    T: Fn(F128) -> UniSkipFoldTable,
 {
    &&& exists|r: &[F128]|
        r@ == r_skip + claim.r_rest@ && #[trigger] call_ensures(
            kernels.round1,
            (mode, a, b, c, m, r, padding),
            round1,
        )
    &&& exists|v: &[F128]|
        v@ == proof.round1_c@ && #[trigger] call_ensures(
            kernels.interpolate,
            (v, claim.z),
            proof.final_c_eval,
        )
    &&& call_ensures(kernels.fold_table, (claim.z,), table)
    &&& proof.round1_ab@.len() == round1.ab@.len()
    &&& proof.round1_c@.len() == round1.c@.len()
    &&& forall|i: int|
        0 <= i < round1.ab@.len() ==> #[trigger] proof.round1_ab@[i] == kernels.constants.c_s
            * round1.ab@[i]
    &&& forall|i: int|
        0 <= i < round1.c@.len() ==> #[trigger] proof.round1_c@[i] == kernels.constants.c_s
            * round1.c@[i]
}

/// A zerocheck with a provider holds its own transcript, asked the kernels what it should, and
/// asked the provider to produce, to fold at the challenge of every resident round, and to
/// finish, with the messages of the proof as answers.
pub proof fn law_zerocheck_holds_its_transcript<R, I, T>(
    kernels: SkipKernels<R, I, T>,
    mode: Option<Round1Mode>,
    a: &[u8],
    b: &[u8],
    c: &[u8],
    m: usize,
    padding: &PaddingSpec,
    run: AbRun,
    h0: Seq<Event>,
    c0: Seq<AbCall>,
    history: Seq<Event>,
    calls: Seq<AbCall>,
    proof: ZerocheckProof,
    claim: ZerocheckClaim,
) where
    R: Fn(Option<Round1Mode>, &[u8], &[u8], &[u8], usize, &[F128], &PaddingSpec) -> Round1Output,
    I: Fn(&[F128], F128) -> F128,
    T: Fn(F128) -> UniSkipFoldTable,

    requires
        m >= 19,
        kernels_answered(kernels, mode, a, b, c, m, padding, run),
        proved(
            run,
            kernels.constants,
            a@,
            b@,
            m,
            *padding,
            h0,
            c0,
            history,
            calls,
            proof,
            claim,
        ),
    ensures
        h0.is_prefix_of(history),
        zerocheck_told(history, h0.len() as int, m as int, kernels.constants, proof, claim),
        history[h0.len() as int + 1] == Event::SampleVec(run.r_skip),
        kernels_asked(
            kernels,
            mode,
            a,
            b,
            c,
            m,
            padding,
            run.r_skip,
            run.round1,
            run.table,
            proof,
            claim,
        ),
        c0.is_prefix_of(calls),
        calls.len() == c0.len() + (m - 18) + 2,
        calls[c0.len() as int] == (AbCall::Produce {
            a: a@,
            b: b@,
            m,
            k: 6,
            table: run.table,
            r: point_after(claim.r_rest@, 0),
            padding: *padding,
            reply: Ok(proof.multilinear_rounds@[0]),
        }),
        forall|j: int|
            1 <= j <= m - 18 ==> #[trigger] calls[c0.len() + j] == (AbCall::Advance {
                rho: claim.mlv_challenges@[j - 1],
                r: point_after(claim.r_rest@, j),
                reply: Ok(proof.multilinear_rounds@[j]),
            }),
        calls.last() matches AbCall::Finish { planes: Ok(planes) } && planes.0.len() == 4096
            && planes.1.len() == 4096,
{
    let k = kernels.constants;
    let rounds = resident_rounds(m);
    lemma_told(run, k, m as int, h0, history, proof, claim);
    lemma_asked(kernels, mode, a, b, c, m, padding, run, proof, claim);
    assert(h0 =~= history.subrange(0, h0.len() as int));
    let point = run.point(k);
    lemma_advances(point, run.messages, run.rhos, rounds, 1);
    assert(round_point(point, 0) =~= point_after(claim.r_rest@, 0));
    assert(c0 =~= calls.subrange(0, c0.len() as int));
    assert forall|j: int| 1 <= j <= m - 18 implies #[trigger] calls[c0.len() + j]
        == (AbCall::Advance {
        rho: claim.mlv_challenges@[j - 1],
        r: point_after(claim.r_rest@, j),
        reply: Ok(proof.multilinear_rounds@[j]),
    }) by {
        lemma_advances(point, run.messages, run.rhos, rounds, j);
        assert(round_point(point, j) =~= point_after(claim.r_rest@, j));
        assert(calls[c0.len() + j] == advance_calls(point, run.messages, run.rhos, rounds)[j - 1]);
    }
}

proof fn lemma_advances(
    point: Seq<F128>,
    messages: Seq<(F128, F128)>,
    rhos: Seq<F128>,
    n: int,
    j: int,
)
    requires
        0 <= n,
    ensures
        advance_calls(point, messages, rhos, n).len() == n,
        1 <= j <= n ==> advance_calls(point, messages, rhos, n)[j - 1] == (AbCall::Advance {
            rho: rhos[j - 1],
            r: round_point(point, j),
            reply: Ok(messages[j]),
        }),
    decreases n,
{
    if n > 0 {
        lemma_advances(point, messages, rhos, n - 1, j);
    }
}

proof fn lemma_asked<R, I, T>(
    kernels: SkipKernels<R, I, T>,
    mode: Option<Round1Mode>,
    a: &[u8],
    b: &[u8],
    c: &[u8],
    m: usize,
    padding: &PaddingSpec,
    run: AbRun,
    proof: ZerocheckProof,
    claim: ZerocheckClaim,
) where
    R: Fn(Option<Round1Mode>, &[u8], &[u8], &[u8], usize, &[F128], &PaddingSpec) -> Round1Output,
    I: Fn(&[F128], F128) -> F128,
    T: Fn(F128) -> UniSkipFoldTable,

    requires
        kernels_answered(kernels, mode, a, b, c, m, padding, run),
        proof.round1_ab@ == scaled(kernels.constants.c_s, run.round1.ab@),
        proof.round1_c@ == scaled(kernels.constants.c_s, run.round1.c@),
        proof.final_c_eval == run.c_eval,
        claim.z == run.z,
        claim.r_rest@ == run.point(kernels.constants).skip(K_SKIP as int),
    ensures
        kernels_asked(
            kernels,
            mode,
            a,
            b,
            c,
            m,
            padding,
            run.r_skip,
            run.round1,
            run.table,
            proof,
            claim,
        ),
{
    let point = run.point(kernels.constants);
    assert(point =~= run.r_skip + claim.r_rest@);
}

/// A zerocheck of the host alone holds its own transcript, and asked the kernels what it
/// should.
pub proof fn law_host_zerocheck_holds_its_transcript<R, I, T>(
    kernels: SkipKernels<R, I, T>,
    mode: Option<Round1Mode>,
    a: &[u8],
    b: &[u8],
    c: &[u8],
    m: usize,
    padding: &PaddingSpec,
    run: AbRun,
    h0: Seq<Event>,
    history: Seq<Event>,
    proof: ZerocheckProof,
    claim: ZerocheckClaim,
) where
    R: Fn(Option<Round1Mode>, &[u8], &[u8], &[u8], usize, &[F128], &PaddingSpec) -> Round1Output,
    I: Fn(&[F128], F128) -> F128,
    T: Fn(F128) -> UniSkipFoldTable,

    requires
        m >= 13,
        kernels_answered(kernels, mode, a, b, c, m, padding, run),
        host_run(
            run,
            kernels.constants,
            a@,
            b@,
            m,
            *padding,
            h0,
            history,
            proof,
            claim,
        ),
    ensures
        h0.is_prefix_of(history),
        zerocheck_told(history, h0.len() as int, m as int, kernels.constants, proof, claim),
        kernels_asked(
            kernels,
            mode,
            a,
            b,
            c,
            m,
            padding,
            run.r_skip,
            run.round1,
            run.table,
            proof,
            claim,
        ),
{
    lemma_told(run, kernels.constants, m as int, h0, history, proof, claim);
    lemma_asked(kernels, mode, a, b, c, m, padding, run, proof, claim);
    assert(h0 =~= history.subrange(0, h0.len() as int));
}

/// The message that a provider answered to a call, where it answered one.
pub open spec fn answer_of(call: AbCall) -> (F128, F128) {
    match call {
        AbCall::Produce { reply: Ok(message), .. } => message,
        AbCall::Advance { reply: Ok(message), .. } => message,
        _ => arbitrary(),
    }
}

/// The challenge that a provider was asked to fold at.
pub open spec fn challenge_of(call: AbCall) -> F128 {
    match call {
        AbCall::Advance { rho, .. } => rho,
        _ => arbitrary(),
    }
}

/// A run that the provider brings down stops at once: after the call that failed nothing is
/// sent or drawn, and before it every answer was sent and followed by the challenge of the
/// next call. The error is the provider's, or names a tail of the wrong length.
pub proof fn law_abandoned_run_stops_at_once(
    run: AbRun,
    constants: ProtocolConstants,
    a: Seq<u8>,
    b: Seq<u8>,
    m: usize,
    padding: PaddingSpec,
    h0: Seq<Event>,
    c0: Seq<AbCall>,
    history: Seq<Event>,
    calls: Seq<AbCall>,
    e: String,
)
    requires
        m >= 19,
        abandoned(run, constants, a, b, m, padding, h0, c0, history, calls, e),
    ensures
        ({
            let asked = calls.len() - c0.len();
            let rounds = if asked - 1 < m - 18 {
                asked - 1
            } else {
                m - 18
            };
            let at = h0.len() + 6;
            &&& 1 <= asked <= m - 18 + 2
            &&& history.len() == at + 3 * rounds
            &&& forall|i: int|
                0 <= i < rounds ==> #[trigger] round_told(
                    history,
                    at + 3 * i,
                    answer_of(calls[c0.len() + i]),
                    challenge_of(calls[c0.len() + i + 1]),
                )
            &&& match calls.last() {
                AbCall::Produce { reply, .. } => asked == 1 && reply == Err::<
                    (F128, F128),
                    String,
                >(e),
                AbCall::Advance { reply, .. } => 2 <= asked <= m - 17 && reply == Err::<
                    (F128, F128),
                    String,
                >(e),
                AbCall::Finish { planes: Err(reported) } => asked == m - 16 && reported == e,
                AbCall::Finish { planes: Ok(planes) } => asked == m - 16 && (planes.0.len() != 4096
                    || planes.1.len() != 4096) && e@ == "backend tail geometry"@,
            }
        }),
{
    let k = resident_rounds(m);
    let point = run.point(constants);
    let refused = run.produce_call(constants, a, b, m, padding, Err(e));
    if calls == c0.push(refused) && history == h0 + run.head_events(constants) {
    } else {
        let produce = run.produce_call(constants, a, b, m, padding, Ok(run.messages[0]));
        let before = c0.push(produce);
        let head = h0 + run.head_events(constants);
        assert(resident_failed(
            e,
            k,
            point,
            run.messages,
            run.rhos,
            head,
            before,
            history,
            calls,
        ));
        let (more, more_calls) = choose|more: Seq<Event>, more_calls: Seq<AbCall>|
            {
                &&& history == head + more
                &&& calls == before + more_calls
                &&& #[trigger] resident_failure(
                    e,
                    k,
                    point,
                    run.messages,
                    run.rhos,
                    more,
                    more_calls,
                )
            };
        let n: int = if more_calls.last() is Advance {
            run.rhos.len() as int
        } else {
            k
        };
        let answered = if more_calls.last() is Advance {
            n - 1
        } else {
            k
        };
        lemma_advances(point, run.messages, run.rhos, answered, 1);
        lemma_rounds_placed(run.messages, run.rhos, n, 0);
        assert forall|i: int| 0 <= i < n implies #[trigger] round_told(
            history,
            h0.len() + 6 + 3 * i,
            answer_of(calls[c0.len() + i]),
            challenge_of(calls[c0.len() + i + 1]),
        ) by {
            lemma_rounds_placed(run.messages, run.rhos, n, i);
            lemma_advances(point, run.messages, run.rhos, answered, i);
            lemma_advances(point, run.messages, run.rhos, answered, i + 1);
            let base = h0.len() + 6;
            assert(history[base + 3 * i] == more[3 * i]);
            assert(history[base + 3 * i + 1] == more[3 * i + 1]);
            assert(history[base + 3 * i + 2] == more[3 * i + 2]);
            if i > 0 {
                assert(calls[c0.len() + i] == more_calls[i - 1]);
            }
            assert(calls[c0.len() + i + 1] == more_calls[i]);
        }
    }
}

} // verus!
