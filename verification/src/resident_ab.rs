//! The zerocheck prover with a resident AB prefix.
use crate::admission::{law_zerocheck_admission, law_zerocheck_overflow};
use crate::field::F128;
use crate::multilinear::{fold, lemma_power_fits, power_of_two, round_message};
use crate::padding::{PaddingSpec, K_SKIP};
use crate::rounds::{
    fold_and_compute_round_pair_fused_tail_into, fold_and_compute_round_pair_into,
    fold_in_place_pair, round_pair_naive,
};
use crate::transcript::{Challenger, Event};
use crate::univariate::UniSkipFoldTable;
use crate::zerocheck::{
    advance_calls, resident_rounds, round_events, round_point, scaled, tail_plane, AbBackend,
    AbCall, AbRun, ProtocolConstants, ProverOptions, Round1Mode, Round1Output, SkipKernels,
    ZerocheckClaim, ZerocheckProof, N_INNER, ROUND1_LEN, TAIL_LEN, TAIL_LOG,
};
use vstd::arithmetic::power2::{lemma_pow2_unfold, pow2};
use vstd::prelude::*;

verus! {

/// The kernels can be called on admitted inputs, first-round messages have their
/// length, and fold tables come out whole.
pub open spec fn kernels_ready<R, I, T>(
    kernels: SkipKernels<R, I, T>,
    a: &[u8],
    b: &[u8],
    c: &[u8],
    m: usize,
    padding: &PaddingSpec,
) -> bool where
    R: Fn(Option<Round1Mode>, &[u8], &[u8], &[u8], usize, &[F128], &PaddingSpec) -> Round1Output,
    I: Fn(&[F128], F128) -> F128,
    T: Fn(F128) -> UniSkipFoldTable,
 {
    &&& forall|mode: Option<Round1Mode>, r: &[F128]|
        r@.len() == m ==> #[trigger] call_requires(kernels.round1, (mode, a, b, c, m, r, padding))
    &&& forall|mode: Option<Round1Mode>, r: &[F128], out: Round1Output|
        #[trigger] call_ensures(kernels.round1, (mode, a, b, c, m, r, padding), out)
            ==> out.ab@.len() == ROUND1_LEN && out.c@.len() == ROUND1_LEN
    &&& forall|v: &[F128], z: F128|
        v@.len() == ROUND1_LEN ==> #[trigger] call_requires(kernels.interpolate, (v, z))
    &&& forall|z: F128| #[trigger] call_requires(kernels.fold_table, (z,))
    &&& forall|z: F128, t: UniSkipFoldTable| #[trigger]
        call_ensures(kernels.fold_table, (z,), t) ==> t.wf()
}

/// The kernel results recorded in `run` are what the kernels answered.
pub open spec fn kernels_answered<R, I, T>(
    kernels: SkipKernels<R, I, T>,
    mode: Option<Round1Mode>,
    a: &[u8],
    b: &[u8],
    c: &[u8],
    m: usize,
    padding: &PaddingSpec,
    run: AbRun,
) -> bool where
    R: Fn(Option<Round1Mode>, &[u8], &[u8], &[u8], usize, &[F128], &PaddingSpec) -> Round1Output,
    I: Fn(&[F128], F128) -> F128,
    T: Fn(F128) -> UniSkipFoldTable,
 {
    &&& run.r_skip.len() == K_SKIP
    &&& run.r_outer.len() == m - K_SKIP - N_INNER
    &&& exists|r: &[F128]|
        r@ == run.point(kernels.constants) && #[trigger] call_ensures(
            kernels.round1,
            (mode, a, b, c, m, r, padding),
            run.round1,
        )
    &&& exists|v: &[F128]|
        v@ == scaled(kernels.constants.c_s, run.round1.c@) && #[trigger] call_ensures(
            kernels.interpolate,
            (v, run.z),
            run.c_eval,
        )
    &&& call_ensures(kernels.fold_table, (run.z,), run.table)
}

pub proof fn lemma_round_events_prefix(
    m1: Seq<(F128, F128)>,
    r1: Seq<F128>,
    m2: Seq<(F128, F128)>,
    r2: Seq<F128>,
    j: int,
)
    requires
        j <= m1.len(),
        j <= r1.len(),
        j <= m2.len(),
        j <= r2.len(),
        forall|i: int| 0 <= i < j ==> m1[i] == m2[i],
        forall|i: int| 0 <= i < j ==> r1[i] == r2[i],
    ensures
        round_events(m1, r1, j) == round_events(m2, r2, j),
    decreases j,
{
    if j > 0 {
        lemma_round_events_prefix(m1, r1, m2, r2, j - 1);
    }
}

proof fn lemma_advance_calls_prefix(
    r: Seq<F128>,
    m1: Seq<(F128, F128)>,
    r1: Seq<F128>,
    m2: Seq<(F128, F128)>,
    r2: Seq<F128>,
    j: int,
)
    requires
        j < m1.len(),
        j <= r1.len(),
        j < m2.len(),
        j <= r2.len(),
        forall|i: int| 0 <= i <= j ==> m1[i] == m2[i],
        forall|i: int| 0 <= i < j ==> r1[i] == r2[i],
    ensures
        advance_calls(r, m1, r1, j) == advance_calls(r, m2, r2, j),
    decreases j,
{
    if j > 0 {
        lemma_advance_calls_prefix(r, m1, r1, m2, r2, j - 1);
    }
}

pub proof fn lemma_tail_plane_prefix(
    plane: Seq<F128>,
    r1: Seq<F128>,
    r2: Seq<F128>,
    from: int,
    to: int,
)
    requires
        0 <= from,
        to <= r1.len(),
        to <= r2.len(),
        forall|i: int| 0 <= i < to ==> r1[i] == r2[i],
    ensures
        tail_plane(plane, r1, from, to) == tail_plane(plane, r2, from, to),
    decreases to - from,
{
    if from < to {
        lemma_tail_plane_prefix(plane, r1, r2, from, to - 1);
    }
}

/// Every entry multiplied by a scalar.
pub(crate) fn scale(scalar: F128, v: &Vec<F128>) -> (out: Vec<F128>)
    ensures
        out@ == scaled(scalar, v@),
{
    let mut out: Vec<F128> = Vec::with_capacity(v.len());
    let mut i: usize = 0;
    while i < v.len()
        invariant
            i <= v@.len(),
            out@.len() == i,
            forall|j: int| 0 <= j < i ==> out@[j] == scalar * v@[j],
        decreases v@.len() - i,
    {
        out.push(scalar * v[i]);
        i = i + 1;
    }
    assert(out@ =~= scaled(scalar, v@));
    out
}

/// The full equality point from its sampled and fixed parts.
pub(crate) fn assemble_point(
    r_skip: &Vec<F128>,
    constants: &ProtocolConstants,
    r_outer: &Vec<F128>,
) -> (r: Vec<F128>)
    ensures
        r@ == r_skip@ + constants.small@ + constants.medium@ + r_outer@,
{
    let mut r: Vec<F128> = Vec::new();
    r.extend_from_slice(r_skip.as_slice());
    r.extend_from_slice(constants.small.as_slice());
    r.extend_from_slice(constants.medium.as_slice());
    r.extend_from_slice(r_outer.as_slice());
    assert(r@ =~= r_skip@ + constants.small@ + constants.medium@ + r_outer@);
    r
}

/// The point of round `i`.
pub(crate) fn point_of_round(r: &Vec<F128>, i: usize) -> (point: Vec<F128>)
    requires
        K_SKIP + 1 + i <= r@.len(),
    ensures
        point@ == round_point(r@, i as int),
{
    let n = r.len();
    let mut point: Vec<F128> = Vec::new();
    point.push(F128::one());
    let rest = vstd::slice::slice_subrange(r.as_slice(), K_SKIP + 1 + i, n);
    point.extend_from_slice(rest);
    assert(point@ =~= round_point(r@, i as int));
    point
}

/// How a run ends when the provider fails after its opening call. `history` and
/// `calls` are the logs at that point, counted from the first round on; exactly
/// the rounds before the failing call are in the transcript.
pub open spec fn resident_failure(
    e: String,
    k: int,
    r: Seq<F128>,
    messages: Seq<(F128, F128)>,
    rhos: Seq<F128>,
    history: Seq<Event>,
    calls: Seq<AbCall>,
) -> bool {
    // a folding call failed
    ||| {
        let j = rhos.len() as int;
        &&& 1 <= j <= k
        &&& messages.len() == j
        &&& history == round_events(messages, rhos, j)
        &&& calls == advance_calls(r, messages, rhos, j - 1).push(
            AbCall::Advance { rho: rhos[j - 1], r: round_point(r, j), reply: Err(e) },
        )
    }
    // the export failed, or exported planes of a wrong length
    ||| {
        &&& rhos.len() == k
        &&& messages.len() == k + 1
        &&& history == round_events(messages, rhos, k)
        &&& calls == advance_calls(r, messages, rhos, k).push(calls.last())
        &&& calls.last() matches AbCall::Finish { planes } && match planes {
            Err(reported) => e == reported,
            Ok((a, b)) => {
                &&& a.len() != TAIL_LEN || b.len() != TAIL_LEN
                &&& e@ == "backend tail geometry"@
            },
        }
    }
}

/// A failed run whose logs continue `h0` and `c0`.
pub open spec fn resident_failed(
    e: String,
    k: int,
    r: Seq<F128>,
    messages: Seq<(F128, F128)>,
    rhos: Seq<F128>,
    h0: Seq<Event>,
    c0: Seq<AbCall>,
    history: Seq<Event>,
    calls: Seq<AbCall>,
) -> bool {
    exists|more: Seq<Event>, more_calls: Seq<AbCall>|
        {
            &&& history == h0 + more
            &&& calls == c0 + more_calls
            &&& #[trigger] resident_failure(e, k, r, messages, rhos, more, more_calls)
        }
}

/// Runs the rounds that the provider folds, and takes over the tail planes.
fn fold_resident<C: Challenger, B: AbBackend + ?Sized>(
    n: usize,
    r: &Vec<F128>,
    messages: &mut Vec<(F128, F128)>,
    rhos: &mut Vec<F128>,
    challenger: &mut C,
    backend: &mut B,
    Ghost(h0): Ghost<Seq<Event>>,
    Ghost(c0): Ghost<Seq<AbCall>>,
) -> (res: Result<(Vec<F128>, Vec<F128>), String>)
    requires
        n > TAIL_LOG,
        r@.len() == n + K_SKIP,
        old(messages)@.len() == 1,
        old(rhos)@.len() == 1,
        old(challenger).history() == h0 + round_events(old(messages)@, old(rhos)@, 1),
        old(backend).calls() == c0,
    ensures
        old(challenger).consistent() ==> final(challenger).consistent(),
        final(backend).setup() == old(backend).setup(),
        old(backend).consistent() ==> final(backend).consistent(),
        final(messages)@[0] == old(messages)@[0],
        match res {
            Ok(planes) => {
                let k = n - TAIL_LOG;
                &&& planes.0@.len() == TAIL_LEN
                &&& planes.1@.len() == TAIL_LEN
                &&& final(messages)@.len() == k + 1
                &&& final(rhos)@.len() == k + 1
                &&& final(challenger).history() == h0 + round_events(
                    final(messages)@,
                    final(rhos)@,
                    k + 1,
                )
                &&& final(backend).calls() == c0 + advance_calls(
                    r@,
                    final(messages)@,
                    final(rhos)@,
                    k,
                ).push(AbCall::Finish { planes: Ok((planes.0@, planes.1@)) })
            },
            Err(e) => resident_failed(
                e,
                n - TAIL_LOG,
                r@,
                final(messages)@,
                final(rhos)@,
                h0,
                c0,
                final(challenger).history(),
                final(backend).calls(),
            ),
        },
{
    let ghost first = messages@[0];
    let ghost k = n - TAIL_LOG;
    let mut i: usize = 0;
    assert(backend.calls() =~= c0 + advance_calls(r@, messages@, rhos@, 0));
    loop
        invariant
            old(challenger).consistent() ==> challenger.consistent(),
            backend.setup() == old(backend).setup(),
            old(backend).consistent() ==> backend.consistent(),
            k == n - TAIL_LOG,
            n > TAIL_LOG,
            r@.len() == n + K_SKIP,
            0 <= i < k,
            messages@.len() == i + 1,
            rhos@.len() == i + 1,
            messages@[0] == first,
            first == old(messages)@[0],
            challenger.history() == h0 + round_events(messages@, rhos@, i + 1),
            backend.calls() == c0 + advance_calls(r@, messages@, rhos@, i as int),
        decreases n - i,
    {
        let ghost m_old = messages@;
        let ghost r_old = rhos@;
        let point = point_of_round(r, i + 1);
        let rho = rhos[i];
        match backend.advance(rho, point.as_slice()) {
            Err(e) => {
                proof {
                    let calls = advance_calls(r@, m_old, r_old, i as int).push(
                        AbCall::Advance { rho, r: point@, reply: Err(e) },
                    );
                    assert(backend.calls() =~= c0 + calls);
                    let j = i + 1;
                    assert(resident_failure(
                        e,
                        n - TAIL_LOG,
                        r@,
                        messages@,
                        rhos@,
                        round_events(m_old, r_old, j),
                        calls,
                    ));
                }
                return Err(e);
            },
            Ok(pair) => {
                let message = (pair[0], pair[1]);
                messages.push(message);
                i = i + 1;
                proof {
                    lemma_advance_calls_prefix(r@, m_old, r_old, messages@, rhos@, i - 1);
                    lemma_round_events_prefix(m_old, r_old, messages@, rhos@, i as int);
                    assert(backend.calls() =~= c0 + advance_calls(
                        r@,
                        messages@,
                        rhos@,
                        i as int,
                    ));
                }
                if n - i == TAIL_LOG {
                    let exported = backend.finish();
                    let ghost done = advance_calls(r@, messages@, rhos@, k);
                    match exported {
                        Err(e) => {
                            proof {
                                let calls = done.push(AbCall::Finish { planes: Err(e) });
                                assert(backend.calls() =~= c0 + calls);
                                assert(resident_failure(
                                    e,
                                    n - TAIL_LOG,
                                    r@,
                                    messages@,
                                    rhos@,
                                    round_events(messages@, rhos@, k),
                                    calls,
                                ));
                            }
                            return Err(e);
                        },
                        Ok((a, b)) => {
                            if a.len() != TAIL_LEN || b.len() != TAIL_LEN {
                                let e = "backend tail geometry".to_string();
                                proof {
                                    let calls = done.push(
                                        AbCall::Finish { planes: Ok((a@, b@)) },
                                    );
                                    assert(backend.calls() =~= c0 + calls);
                                    assert(resident_failure(
                                        e,
                                        n - TAIL_LOG,
                                        r@,
                                        messages@,
                                        rhos@,
                                        round_events(messages@, rhos@, k),
                                        calls,
                                    ));
                                }
                                return Err(e);
                            }
                            let ghost before = rhos@;
                            challenger.observe_f128(message.0);
                            challenger.observe_f128(message.1);
                            let next = challenger.sample_f128();
                            rhos.push(next);
                            proof {
                                lemma_advance_calls_prefix(
                                    r@,
                                    messages@,
                                    before,
                                    messages@,
                                    rhos@,
                                    k,
                                );
                                lemma_round_events_prefix(messages@, before, messages@, rhos@, k);
                                assert(challenger.history() =~= h0 + round_events(
                                    messages@,
                                    rhos@,
                                    k + 1,
                                ));
                                assert(backend.calls() =~= c0 + advance_calls(
                                    r@,
                                    messages@,
                                    rhos@,
                                    k,
                                ).push(AbCall::Finish { planes: Ok((a@, b@)) }));
                            }
                            return Ok((a, b));
                        },
                    }
                }
                let ghost before = rhos@;
                challenger.observe_f128(message.0);
                challenger.observe_f128(message.1);
                let next = challenger.sample_f128();
                rhos.push(next);
                proof {
                    lemma_advance_calls_prefix(r@, messages@, before, messages@, rhos@, i as int);
                    lemma_round_events_prefix(messages@, before, messages@, rhos@, i as int);
                    assert(challenger.history() =~= h0 + round_events(
                        messages@,
                        rhos@,
                        i + 1,
                    ));
                }
            },
        }
    }
}

/// The rounds `from + 1 .. upto` have the messages of the tail planes.
pub open spec fn tail_messages_upto(
    a: Seq<F128>,
    b: Seq<F128>,
    r: Seq<F128>,
    messages: Seq<(F128, F128)>,
    rhos: Seq<F128>,
    from: int,
    upto: int,
) -> bool {
    forall|i: int|
        from < i < upto ==> #[trigger] messages[i] == round_message(
            tail_plane(a, rhos, from, i),
            tail_plane(b, rhos, from, i),
            round_point(r, i),
        )
}

/// Runs the rounds after round `k` and the final binding; returns the two plane
/// evaluations.
pub(crate) fn fold_tail<C: Challenger>(
    n: usize,
    k: usize,
    r: &Vec<F128>,
    options: ProverOptions,
    a_tail: Vec<F128>,
    b_tail: Vec<F128>,
    messages: &mut Vec<(F128, F128)>,
    rhos: &mut Vec<F128>,
    challenger: &mut C,
    Ghost(h0): Ghost<Seq<Event>>,
) -> (evals: (F128, F128))
    requires
        k < n,
        r@.len() == n + K_SKIP,
        a_tail@.len() == pow2((n - k) as nat),
        b_tail@.len() == pow2((n - k) as nat),
        old(messages)@.len() == k + 1,
        old(rhos)@.len() == k + 1,
        old(challenger).history() == h0 + round_events(
            old(messages)@,
            old(rhos)@,
            k + 1,
        ),
    ensures
        old(challenger).consistent() ==> final(challenger).consistent(),
        final(messages)@.len() == n,
        final(rhos)@.len() == n,
        forall|j: int| 0 <= j <= k ==> final(messages)@[j] == old(messages)@[j],
        forall|j: int| 0 <= j <= k ==> final(rhos)@[j] == old(rhos)@[j],
        final(challenger).history() == h0 + round_events(final(messages)@, final(rhos)@, n as int),
        tail_messages_upto(
            a_tail@,
            b_tail@,
            r@,
            final(messages)@,
            final(rhos)@,
            k as int,
            n as int,
        ),
        evals.0 == tail_plane(a_tail@, final(rhos)@, k as int, n as int)[0],
        evals.1 == tail_plane(b_tail@, final(rhos)@, k as int, n as int)[0],
{
    let ghost m_in = messages@;
    let ghost r_in = rhos@;
    let ghost a0 = a_tail@;
    let ghost b0 = b_tail@;
    let mut a = a_tail;
    let mut b = b_tail;
    let half = a.len() / 2;
    let mut a_next: Vec<F128> = vec![F128::zero(); half];
    let mut b_next: Vec<F128> = vec![F128::zero(); half];
    let mut i: usize = k;
    proof {
        vstd::arithmetic::power2::lemma2_to64();
        lemma_pow2_unfold((n - k) as nat);
    }
    while i < n - 1
        invariant
            old(challenger).consistent() ==> challenger.consistent(),
            k < n,
            r@.len() == n + K_SKIP,
            k <= i <= n - 1,
            m_in.len() == k + 1,
            r_in.len() == k + 1,
            messages@.len() == i + 1,
            rhos@.len() == i + 1,
            forall|j: int| 0 <= j <= k ==> messages@[j] == m_in[j],
            forall|j: int| 0 <= j <= k ==> rhos@[j] == r_in[j],
            a@ == tail_plane(a0, rhos@, k as int, i as int),
            b@ == tail_plane(b0, rhos@, k as int, i as int),
            a@.len() == pow2((n - i) as nat),
            b@.len() == pow2((n - i) as nat),
            2 * a_next@.len() >= a@.len(),
            2 * b_next@.len() >= b@.len(),
            challenger.history() == h0 + round_events(messages@, rhos@, i + 1),
            tail_messages_upto(a0, b0, r@, messages@, rhos@, k as int, i + 1),
        decreases n - i,
    {
        let ghost m_old = messages@;
        let ghost r_old = rhos@;
        let rho = rhos[i];
        let point = point_of_round(r, i + 1);
        let half = a.len() / 2;
        proof {
            lemma_pow2_unfold((n - i) as nat);
        }
        let message = if n - i >= 10 {
            let message = if options.fused_tail {
                fold_and_compute_round_pair_fused_tail_into(
                    a.as_slice(),
                    b.as_slice(),
                    &mut a_next,
                    &mut b_next,
                    rho,
                    point.as_slice(),
                )
            } else {
                fold_and_compute_round_pair_into(
                    a.as_slice(),
                    b.as_slice(),
                    &mut a_next,
                    &mut b_next,
                    rho,
                    point.as_slice(),
                )
            };
            let ghost a_fold = fold(a@, rho);
            let ghost b_fold = fold(b@, rho);
            std::mem::swap(&mut a, &mut a_next);
            std::mem::swap(&mut b, &mut b_next);
            a.truncate(half);
            b.truncate(half);
            assert(a@ =~= a_fold);
            assert(b@ =~= b_fold);
            message
        } else {
            fold_in_place_pair(&mut a, &mut b, rho);
            round_pair_naive(a.as_slice(), b.as_slice(), point.as_slice())
        };
        messages.push(message);
        challenger.observe_f128(message.0);
        challenger.observe_f128(message.1);
        let next = challenger.sample_f128();
        rhos.push(next);
        proof {
            lemma_round_events_prefix(m_old, r_old, messages@, rhos@, i + 1);
            assert(challenger.history() =~= h0 + round_events(messages@, rhos@, i + 2));
            lemma_tail_plane_prefix(a0, r_old, rhos@, k as int, i as int);
            lemma_tail_plane_prefix(b0, r_old, rhos@, k as int, i as int);
            assert(tail_plane(a0, rhos@, k as int, i + 1) == fold(
                tail_plane(a0, r_old, k as int, i as int),
                rho,
            ));
            assert(tail_plane(b0, rhos@, k as int, i + 1) == fold(
                tail_plane(b0, r_old, k as int, i as int),
                rho,
            ));
            assert forall|j: int| k < j < i + 2 implies #[trigger] messages@[j] == round_message(
                tail_plane(a0, rhos@, k as int, j),
                tail_plane(b0, rhos@, k as int, j),
                round_point(r@, j),
            ) by {
                if j < i + 1 {
                    assert(m_old[j] == messages@[j]);
                    lemma_tail_plane_prefix(a0, r_old, rhos@, k as int, j);
                    lemma_tail_plane_prefix(b0, r_old, rhos@, k as int, j);
                }
            }
        }
        i = i + 1;
    }
    let rho_last = rhos[n - 1];
    proof {
        lemma_pow2_unfold(1);
    }
    fold_in_place_pair(&mut a, &mut b, rho_last);
    (a[0], b[0])
}

/// Why inputs are not admitted, if they are not.
pub open spec fn admission_error(
    a_len: nat,
    b_len: nat,
    c_len: nat,
    m: usize,
    padding: PaddingSpec,
    rows: usize,
) -> Option<Seq<char>> {
    if !(19 <= m <= 33) {
        Some("resident m admission"@)
    } else if m >= usize::BITS {
        Some("input overflow"@)
    } else if a_len != pow2(m as nat) / 8 || b_len != pow2(m as nat) / 8 || c_len != pow2(m as nat)
        / 8 || rows != pow2((m - K_SKIP) as nat) || !padding.valid(m as nat) {
        Some("resident shape/padding admission"@)
    } else {
        None
    }
}

/// A run that went through: the transcript holds the whole protocol, the provider
/// was called once to produce, once per resident round and once to export, and
/// the proof and the claim hold what was exchanged.
pub open spec fn proved(
    run: AbRun,
    constants: ProtocolConstants,
    a: Seq<u8>,
    b: Seq<u8>,
    m: usize,
    padding: PaddingSpec,
    h0: Seq<Event>,
    c0: Seq<AbCall>,
    history: Seq<Event>,
    calls: Seq<AbCall>,
    proof: ZerocheckProof,
    claim: ZerocheckClaim,
) -> bool {
    let n = m - K_SKIP;
    let k = resident_rounds(m);
    &&& run.messages.len() == n
    &&& run.rhos.len() == n
    &&& run.a_tail.len() == TAIL_LEN
    &&& run.b_tail.len() == TAIL_LEN
    &&& run.tail_messages_hold(constants, m)
    &&& history == h0 + run.events(constants, n).push(Event::Observe(proof.final_a_eval)).push(
        Event::Observe(proof.final_b_eval),
    )
    &&& calls == c0 + run.answered_calls(constants, a, b, m, padding, k).push(
        AbCall::Finish { planes: Ok((run.a_tail, run.b_tail)) },
    )
    &&& proof.round1_ab@ == scaled(constants.c_s, run.round1.ab@)
    &&& proof.round1_c@ == scaled(constants.c_s, run.round1.c@)
    &&& proof.multilinear_rounds@ == run.messages
    &&& proof.final_a_eval == tail_plane(run.a_tail, run.rhos, k, n)[0]
    &&& proof.final_b_eval == tail_plane(run.b_tail, run.rhos, k, n)[0]
    &&& proof.final_c_eval == run.c_eval
    &&& claim.z == run.z
    &&& claim.mlv_challenges@ == run.rhos
    &&& claim.r_rest@ == run.point(constants).skip(K_SKIP as int)
    &&& claim.a_eval == proof.final_a_eval
    &&& claim.b_eval == proof.final_b_eval
    &&& claim.c_eval == proof.final_c_eval
}

/// A run that the provider brought down: the transcript and the calls stop at the
/// failing call, and the error is the provider's own or names the bad tail.
pub open spec fn abandoned(
    run: AbRun,
    constants: ProtocolConstants,
    a: Seq<u8>,
    b: Seq<u8>,
    m: usize,
    padding: PaddingSpec,
    h0: Seq<Event>,
    c0: Seq<AbCall>,
    history: Seq<Event>,
    calls: Seq<AbCall>,
    e: String,
) -> bool {
    ||| {
        &&& history == h0 + run.head_events(constants)
        &&& calls == c0.push(run.produce_call(constants, a, b, m, padding, Err(e)))
    }
    ||| {
        &&& run.messages.len() >= 1
        &&& resident_failed(
            e,
            resident_rounds(m),
            run.point(constants),
            run.messages,
            run.rhos,
            h0 + run.head_events(constants),
            c0.push(run.produce_call(constants, a, b, m, padding, Ok(run.messages[0]))),
            history,
            calls,
        )
    }
}

/// What an admitted proof attempt did and returned.
pub open spec fn outcome<R, I, T>(
    kernels: SkipKernels<R, I, T>,
    mode: Option<Round1Mode>,
    a: &[u8],
    b: &[u8],
    c: &[u8],
    m: usize,
    padding: &PaddingSpec,
    h0: Seq<Event>,
    c0: Seq<AbCall>,
    history: Seq<Event>,
    calls: Seq<AbCall>,
    res: Result<(ZerocheckProof, ZerocheckClaim, Option<Vec<F128>>), String>,
) -> bool where
    R: Fn(Option<Round1Mode>, &[u8], &[u8], &[u8], usize, &[F128], &PaddingSpec) -> Round1Output,
    I: Fn(&[F128], F128) -> F128,
    T: Fn(F128) -> UniSkipFoldTable,
 {
    exists|run: AbRun|
        {
            &&& #[trigger] kernels_answered(kernels, mode, a, b, c, m, padding, run)
            &&& match res {
                Ok((proof, claim, s_hat_v)) => {
                    &&& proved(
                        run,
                        kernels.constants,
                        a@,
                        b@,
                        m,
                        *padding,
                        h0,
                        c0,
                        history,
                        calls,
                        proof,
                        claim,
                    )
                    &&& s_hat_v == (if mode is Some {
                        Some(run.round1.s_hat_v)
                    } else {
                        None
                    })
                },
                Err(e) => abandoned(
                    run,
                    kernels.constants,
                    a@,
                    b@,
                    m,
                    *padding,
                    h0,
                    c0,
                    history,
                    calls,
                    e,
                ),
            }
        }
}

/// The prover on admitted inputs; `capture` asks for the first-round C vector by
/// packed bit position as well.
fn resident_inner<C, B, R, I, T>(
    a: &[u8],
    b: &[u8],
    c: &[u8],
    m: usize,
    padding: &PaddingSpec,
    capture: bool,
    options: ProverOptions,
    kernels: &SkipKernels<R, I, T>,
    challenger: &mut C,
    backend: &mut B,
) -> (res: Result<(ZerocheckProof, ZerocheckClaim, Option<Vec<F128>>), String>) where
    C: Challenger,
    B: AbBackend + ?Sized,
    R: Fn(Option<Round1Mode>, &[u8], &[u8], &[u8], usize, &[F128], &PaddingSpec) -> Round1Output,
    I: Fn(&[F128], F128) -> F128,
    T: Fn(F128) -> UniSkipFoldTable,

    requires
        19 <= m,
        pow2(m as nat) <= usize::MAX,
        a@.len() == pow2(m as nat) / 8,
        b@.len() == a@.len(),
        c@.len() == a@.len(),
        padding.valid(m as nat),
        kernels_ready(*kernels, a, b, c, m, padding),
    ensures
        old(challenger).consistent() ==> final(challenger).consistent(),
        final(backend).setup() == old(backend).setup(),
        old(backend).consistent() ==> final(backend).consistent(),
        outcome(
            *kernels,
            if capture {
                Some(options.round1)
            } else {
                None
            },
            a,
            b,
            c,
            m,
            padding,
            old(challenger).history(),
            old(backend).calls(),
            final(challenger).history(),
            final(backend).calls(),
            res,
        ),
{
    let n = m - K_SKIP;
    let ghost h0 = challenger.history();
    let ghost c0 = backend.calls();
    let constants = &kernels.constants;
    challenger.observe_label("flock-zerocheck-v0");
    let r_skip = challenger.sample_f128_vec(K_SKIP);
    let r_outer = challenger.sample_f128_vec(m - K_SKIP - N_INNER);
    let r = assemble_point(&r_skip, constants, &r_outer);
    let mode = if capture { Some(options.round1) } else { None };
    let r_slice = r.as_slice();
    let round1 = (kernels.round1)(mode, a, b, c, m, r_slice, padding);
    assert(call_ensures(kernels.round1, (mode, a, b, c, m, r_slice, padding), round1));
    let round1_ab = scale(constants.c_s, &round1.ab);
    let round1_c = scale(constants.c_s, &round1.c);
    challenger.observe_f128_slice(round1_ab.as_slice());
    challenger.observe_f128_slice(round1_c.as_slice());
    let z = challenger.sample_f128();
    let c_slice = round1_c.as_slice();
    let c_eval = (kernels.interpolate)(c_slice, z);
    let table = (kernels.fold_table)(z);
    let point = point_of_round(&r, 0);
    let ghost run = AbRun {
        r_skip: r_skip@,
        r_outer: r_outer@,
        round1,
        z,
        c_eval,
        table,
        messages: Seq::empty(),
        rhos: Seq::empty(),
        a_tail: Seq::empty(),
        b_tail: Seq::empty(),
    };
    let ghost head = run.head_events(*constants);
    proof {
        assert(challenger.history() =~= h0 + head);
        assert(r_slice@ =~= run.point(*constants));
        assert(call_ensures(kernels.round1, (mode, a, b, c, m, r_slice, padding), run.round1));
        assert(call_ensures(kernels.interpolate, (c_slice, run.z), run.c_eval));
        assert(kernels_answered(*kernels, mode, a, b, c, m, padding, run));
        lemma_row_bytes(m as nat);
    }
    let reply = backend.produce(a, b, m, K_SKIP, &table, point.as_slice(), padding);
    let pair = match reply {
        Err(e) => {
            assert(backend.calls() =~= c0.push(
                run.produce_call(*constants, a@, b@, m, *padding, Err(e)),
            ));
            assert(abandoned(
                run,
                *constants,
                a@,
                b@,
                m,
                *padding,
                h0,
                c0,
                challenger.history(),
                backend.calls(),
                e,
            ));
            return Err(e);
        },
        Ok(pair) => pair,
    };
    let first = (pair[0], pair[1]);
    let mut messages: Vec<(F128, F128)> = Vec::with_capacity(n);
    messages.push(first);
    challenger.observe_f128(first.0);
    challenger.observe_f128(first.1);
    let mut rhos: Vec<F128> = Vec::with_capacity(n);
    rhos.push(challenger.sample_f128());
    let ghost h1 = h0 + head;
    let ghost c1 = backend.calls();
    proof {
        reveal_with_fuel(round_events, 2);
        assert(challenger.history() =~= h1 + round_events(messages@, rhos@, 1));
        assert(c1 =~= c0.push(run.produce_call(*constants, a@, b@, m, *padding, Ok(first))));
        assert(r@ =~= run.point(*constants));
    }
    let (a_tail, b_tail) = match fold_resident(
        n,
        &r,
        &mut messages,
        &mut rhos,
        challenger,
        backend,
        Ghost(h1),
        Ghost(c1),
    ) {
        Err(e) => {
            let ghost started = run;
            let ghost run = AbRun { messages: messages@, rhos: rhos@, ..started };
            proof {
                lemma_answers_stay(*kernels, mode, a, b, c, m, padding, started, run);
            }
            assert(run.head_events(*constants) == head);
            assert(abandoned(
                run,
                *constants,
                a@,
                b@,
                m,
                *padding,
                h0,
                c0,
                challenger.history(),
                backend.calls(),
                e,
            ));
            return Err(e);
        },
        Ok(planes) => planes,
    };
    let ghost k = resident_rounds(m);
    let ghost m2 = messages@;
    let ghost r2 = rhos@;
    let ghost a0 = a_tail@;
    let ghost b0 = b_tail@;
    proof {
        vstd::arithmetic::power2::lemma2_to64();
    }
    let (final_a_eval, final_b_eval) = fold_tail(
        n,
        n - TAIL_LOG,
        &r,
        options,
        a_tail,
        b_tail,
        &mut messages,
        &mut rhos,
        challenger,
        Ghost(h1),
    );
    challenger.observe_f128(final_a_eval);
    challenger.observe_f128(final_b_eval);
    let mut r_rest: Vec<F128> = Vec::new();
    let rest = vstd::slice::slice_subrange(r.as_slice(), K_SKIP, m);
    r_rest.extend_from_slice(rest);
    let s_hat_v = if capture { Some(round1.s_hat_v) } else { None };
    let ghost started = run;
    let ghost run = AbRun { messages: messages@, rhos: rhos@, a_tail: a0, b_tail: b0, ..started };
    let proof = ZerocheckProof {
        round1_ab,
        round1_c,
        multilinear_rounds: messages,
        final_a_eval,
        final_b_eval,
        final_c_eval: c_eval,
    };
    let claim = ZerocheckClaim {
        z,
        mlv_challenges: rhos,
        r_rest,
        a_eval: final_a_eval,
        b_eval: final_b_eval,
        c_eval,
    };
    proof {
        lemma_answers_stay(*kernels, mode, a, b, c, m, padding, started, run);
        lemma_advance_calls_prefix(r@, m2, r2, run.messages, run.rhos, k);
        assert(run.head_events(*constants) == head);
        assert(challenger.history() =~= h0 + run.events(*constants, n as int).push(
            Event::Observe(final_a_eval),
        ).push(Event::Observe(final_b_eval)));
        assert(backend.calls() =~= c0 + run.answered_calls(
            *constants,
            a@,
            b@,
            m,
            *padding,
            k,
        ).push(AbCall::Finish { planes: Ok((a0, b0)) }));
        assert(r_rest@ =~= run.point(*constants).skip(K_SKIP as int));
        assert(run.tail_messages_hold(*constants, m));
    }
    Ok((proof, claim, s_hat_v))
}

/// Later rounds do not change what the kernels answered.
pub proof fn lemma_answers_stay<R, I, T>(
    kernels: SkipKernels<R, I, T>,
    mode: Option<Round1Mode>,
    a: &[u8],
    b: &[u8],
    c: &[u8],
    m: usize,
    padding: &PaddingSpec,
    run: AbRun,
    later: AbRun,
) where
    R: Fn(Option<Round1Mode>, &[u8], &[u8], &[u8], usize, &[F128], &PaddingSpec) -> Round1Output,
    I: Fn(&[F128], F128) -> F128,
    T: Fn(F128) -> UniSkipFoldTable,

    requires
        kernels_answered(kernels, mode, a, b, c, m, padding, run),
        later.r_skip == run.r_skip,
        later.r_outer == run.r_outer,
        later.round1 == run.round1,
        later.z == run.z,
        later.c_eval == run.c_eval,
        later.table == run.table,
    ensures
        kernels_answered(kernels, mode, a, b, c, m, padding, later),
{
    assert(later.point(kernels.constants) == run.point(kernels.constants));
}

pub proof fn lemma_row_bytes(m: nat)
    requires
        m >= 9,
    ensures
        pow2(m) / 8 == 8 * pow2((m - K_SKIP) as nat),
{
    vstd::arithmetic::power2::lemma_pow2_adds((m - 6) as nat, 6);
    vstd::arithmetic::power2::lemma2_to64();
}

/// A captured result in the form that `outcome` speaks of.
pub open spec fn captured(
    res: Result<(ZerocheckProof, ZerocheckClaim, Vec<F128>), String>,
) -> Result<(ZerocheckProof, ZerocheckClaim, Option<Vec<F128>>), String> {
    match res {
        Ok((proof, claim, s_hat_v)) => Ok((proof, claim, Some(s_hat_v))),
        Err(e) => Err(e),
    }
}

/// Prove with an external AB prefix and the host's own continuation.
///
/// Shape admission errors occur before the challenger is touched or the provider
/// computes anything. Once admitted, errors from the provider or a malformed tail
/// may occur after transcript mutation: discard that proof attempt and challenger
/// state. There is no automatic fallback or replay. Packed inputs must satisfy the
/// zero-padding contract; only padding geometry is checked.
pub fn prove_capture_with_backend<C, B, R, I, T>(
    a: &[u8],
    b: &[u8],
    c: &[u8],
    m: usize,
    padding: &PaddingSpec,
    options: ProverOptions,
    kernels: &SkipKernels<R, I, T>,
    challenger: &mut C,
    backend: &mut B,
) -> (res: Result<(ZerocheckProof, ZerocheckClaim, Vec<F128>), String>) where
    C: Challenger,
    B: AbBackend + ?Sized,
    R: Fn(Option<Round1Mode>, &[u8], &[u8], &[u8], usize, &[F128], &PaddingSpec) -> Round1Output,
    I: Fn(&[F128], F128) -> F128,
    T: Fn(F128) -> UniSkipFoldTable,

    requires
        admission_error(a@.len(), b@.len(), c@.len(), m, *padding, old(backend).row_count()) is None
            ==> kernels_ready(*kernels, a, b, c, m, padding),
    ensures
        old(challenger).consistent() ==> final(challenger).consistent(),
        final(backend).setup() == old(backend).setup(),
        old(backend).consistent() ==> final(backend).consistent(),
        match admission_error(
            a@.len(),
            b@.len(),
            c@.len(),
            m,
            *padding,
            old(backend).row_count(),
        ) {
            Some(text) => {
                &&& res matches Err(e) && e@ == text
                &&& *final(challenger) == *old(challenger)
                &&& final(backend).calls() == old(backend).calls()
            },
            None => outcome(
                *kernels,
                Some(options.round1),
                a,
                b,
                c,
                m,
                padding,
                old(challenger).history(),
                old(backend).calls(),
                final(challenger).history(),
                final(backend).calls(),
                captured(res),
            ),
        },
        (19 <= m <= 33 && m < usize::BITS && 8 * a@.len() == pow2(m as nat) && b@.len() == a@.len()
            && c@.len() == a@.len() && 64 * old(backend).row_count() == pow2(m as nat) && 7
            <= padding.k_log <= m && padding.useful_bits_per_block <= pow2(padding.k_log as nat))
            ==> outcome(
            *kernels,
            Some(options.round1),
            a,
            b,
            c,
            m,
            padding,
            old(challenger).history(),
            old(backend).calls(),
            final(challenger).history(),
            final(backend).calls(),
            captured(res),
        ),
        !(19 <= m <= 33 && m < usize::BITS && 8 * a@.len() == pow2(m as nat) && b@.len() == a@.len()
            && c@.len() == a@.len() && 64 * old(backend).row_count() == pow2(m as nat) && 7
            <= padding.k_log <= m && padding.useful_bits_per_block <= pow2(padding.k_log as nat))
            ==> {
            &&& res is Err
            &&& *final(challenger) == *old(challenger)
            &&& final(backend).calls() == old(backend).calls()
        },
{
    proof {
        let rows = backend.row_count();
        if m < usize::BITS {
            law_zerocheck_admission(a@.len(), b@.len(), c@.len(), m, *padding, rows);
        } else {
            law_zerocheck_overflow(a@.len(), b@.len(), c@.len(), m, *padding, rows);
        }
    }
    if m < 19 || m > 33 {
        return Err("resident m admission".to_string());
    }
    if m >= usize::BITS as usize {
        return Err("input overflow".to_string());
    }
    proof {
        lemma_power_fits(m as nat);
        lemma_power_fits((m - K_SKIP) as nat);
    }
    let input = power_of_two(m) / 8;
    if a.len() != input || b.len() != input || c.len() != input || backend.rows() != power_of_two(
        m - K_SKIP,
    ) || padding.k_log < 7 || padding.k_log > m {
        return Err("resident shape/padding admission".to_string());
    }
    proof {
        lemma_power_fits(padding.k_log as nat);
    }
    if padding.useful_bits_per_block > power_of_two(padding.k_log) {
        return Err("resident shape/padding admission".to_string());
    }
    match resident_inner(a, b, c, m, padding, true, options, kernels, challenger, backend) {
        Ok((proof, claim, Some(s_hat_v))) => Ok((proof, claim, s_hat_v)),
        Ok((proof, claim, None)) => {
            assert(false);
            Ok((proof, claim, Vec::new()))
        },
        Err(e) => Err(e),
    }
}

} // verus!
