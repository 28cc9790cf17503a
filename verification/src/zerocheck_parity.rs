//! Zerocheck runs that give the same result: with a processor provider, and on the host
//! alone.
use crate::cpu_ab::{ab_log_fits, ab_state, lemma_ab_log_push, Fault};
use crate::extension::law_folds_compose;
use crate::faithful::ab_faithful;
use crate::field::F128;
use crate::multilinear::fold;
use crate::padding::{PaddingSpec, K_SKIP};
use crate::resident_ab::{
    abandoned, captured, kernels_answered, lemma_row_bytes, lemma_tail_plane_prefix, outcome,
    proved, resident_failed, resident_failure,
};
use crate::rounds::planes_match;
use crate::transcript::{lemma_obeys_at, obeys, Event, Rule};
use crate::univariate::{folded_plane, UniSkipFoldTable};
use crate::zerocheck::{
    advance_calls, resident_rounds, round_events, round_point, scaled, tail_plane, AbCall, AbRun,
    ProtocolConstants, Round1Mode, Round1Output, SkipKernels, ZerocheckClaim, ZerocheckProof,
    TAIL_LEN,
};
use crate::zerocheck_host::{host_answered, host_message, host_run, host_zerocheck};
use vstd::arithmetic::power2::{lemma2_to64, lemma_pow2_unfold, pow2};
use vstd::prelude::*;

verus! {

/// A zerocheck proof by value.
pub struct ZerocheckProofView {
    pub round1_ab: Seq<F128>,
    pub round1_c: Seq<F128>,
    pub multilinear_rounds: Seq<(F128, F128)>,
    pub final_a_eval: F128,
    pub final_b_eval: F128,
    pub final_c_eval: F128,
}

impl View for ZerocheckProof {
    type V = ZerocheckProofView;

    open spec fn view(&self) -> ZerocheckProofView {
        ZerocheckProofView {
            round1_ab: self.round1_ab@,
            round1_c: self.round1_c@,
            multilinear_rounds: self.multilinear_rounds@,
            final_a_eval: self.final_a_eval,
            final_b_eval: self.final_b_eval,
            final_c_eval: self.final_c_eval,
        }
    }
}

/// Evaluation claims by value.
pub struct ZerocheckClaimView {
    pub z: F128,
    pub mlv_challenges: Seq<F128>,
    pub r_rest: Seq<F128>,
    pub a_eval: F128,
    pub b_eval: F128,
    pub c_eval: F128,
}

impl View for ZerocheckClaim {
    type V = ZerocheckClaimView;

    open spec fn view(&self) -> ZerocheckClaimView {
        ZerocheckClaimView {
            z: self.z,
            mlv_challenges: self.mlv_challenges@,
            r_rest: self.r_rest@,
            a_eval: self.a_eval,
            b_eval: self.b_eval,
            c_eval: self.c_eval,
        }
    }
}

/// Every kernel answers equal arguments equally on these inputs.
pub open spec fn skip_kernels_functional<R, I, T>(
    kernels: SkipKernels<R, I, T>,
    a: &[u8],
    b: &[u8],
    c: &[u8],
    m: usize,
    padding: &PaddingSpec,
) -> bool where
    R: Fn(Option<Round1Mode>, &[u8], &[u8], &[u8], usize, &[F128], &PaddingSpec) -> Round1Output,
    I: Fn(&[F128], F128) -> F128,
    T: Fn(F128) -> UniSkipFoldTable,
 {
    &&& forall|
        mode: Option<Round1Mode>,
        r: &[F128],
        s: &[F128],
        o: Round1Output,
        q: Round1Output,
    |
        r@ == s@ && #[trigger] call_ensures(kernels.round1, (mode, a, b, c, m, r, padding), o)
            && #[trigger] call_ensures(kernels.round1, (mode, a, b, c, m, s, padding), q) ==> o.ab@
            == q.ab@ && o.c@ == q.c@ && o.s_hat_v@ == q.s_hat_v@
    &&& forall|v: &[F128], w: &[F128], z: F128, x: F128, y: F128|
        v@ == w@ && #[trigger] call_ensures(kernels.interpolate, (v, z), x)
            && #[trigger] call_ensures(kernels.interpolate, (w, z), y) ==> x == y
    &&& forall|z: F128, t: UniSkipFoldTable, u: UniSkipFoldTable|
        #[trigger] call_ensures(kernels.fold_table, (z,), t) && #[trigger] call_ensures(
            kernels.fold_table,
            (z,),
            u,
        ) ==> t.data@ == u.data@
}

/// Where the challenge of round `j` stands in the transcript of the rounds.
proof fn lemma_round_challenge(
    messages: Seq<(F128, F128)>,
    rhos: Seq<F128>,
    n: int,
    j: int,
)
    requires
        0 <= j < n,
    ensures
        round_events(messages, rhos, n).len() == 3 * n,
        round_events(messages, rhos, n)[3 * j + 2] == Event::Sample(rhos[j]),
        round_events(messages, rhos, n).take(3 * j + 2) == round_events(messages, rhos, j).push(
            Event::Observe(messages[j].0),
        ).push(Event::Observe(messages[j].1)),
    decreases n,
{
    let all = round_events(messages, rhos, n);
    let before = round_events(messages, rhos, n - 1);
    lemma_round_length(messages, rhos, n);
    lemma_round_length(messages, rhos, n - 1);
    if j < n - 1 {
        lemma_round_challenge(messages, rhos, n - 1, j);
        assert(all.take(3 * j + 2) =~= before.take(3 * j + 2));
    } else {
        assert(all.take(3 * j + 2) =~= before.push(Event::Observe(messages[j].0)).push(
            Event::Observe(messages[j].1),
        ));
    }
}

proof fn lemma_round_length(messages: Seq<(F128, F128)>, rhos: Seq<F128>, n: int)
    requires
        0 <= n,
    ensures
        round_events(messages, rhos, n).len() == 3 * n,
    decreases n,
{
    if n > 0 {
        lemma_round_length(messages, rhos, n - 1);
    }
}

proof fn lemma_head_unique<R, I, T>(
    kernels: SkipKernels<R, I, T>,
    mode: Option<Round1Mode>,
    a: &[u8],
    b: &[u8],
    c: &[u8],
    m: usize,
    padding: &PaddingSpec,
    h0: Seq<Event>,
    x: AbRun,
    x_rest: Seq<Event>,
    y: AbRun,
    y_rest: Seq<Event>,
    rule: Rule,
) where
    R: Fn(Option<Round1Mode>, &[u8], &[u8], &[u8], usize, &[F128], &PaddingSpec) -> Round1Output,
    I: Fn(&[F128], F128) -> F128,
    T: Fn(F128) -> UniSkipFoldTable,

    requires
        skip_kernels_functional(kernels, a, b, c, m, padding),
        kernels_answered(kernels, mode, a, b, c, m, padding, x),
        kernels_answered(kernels, mode, a, b, c, m, padding, y),
        obeys(h0 + x.head_events(kernels.constants) + x_rest, h0.len(), rule),
        obeys(h0 + y.head_events(kernels.constants) + y_rest, h0.len(), rule),
    ensures
        x.r_skip == y.r_skip,
        x.r_outer == y.r_outer,
        x.round1.ab@ == y.round1.ab@,
        x.round1.c@ == y.round1.c@,
        x.round1.s_hat_v@ == y.round1.s_hat_v@,
        x.z == y.z,
        x.c_eval == y.c_eval,
        x.table.data@ == y.table.data@,
        x.head_events(kernels.constants) == y.head_events(kernels.constants),
{
    let k = kernels.constants;
    let l = h0.len() as int;
    let hx = h0 + x.head_events(k) + x_rest;
    let hy = h0 + y.head_events(k) + y_rest;
    lemma_obeys_at(hx, h0.len(), rule, l + 1);
    lemma_obeys_at(hy, h0.len(), rule, l + 1);
    assert(hx.take(l + 1) =~= hy.take(l + 1));
    assert(hx[l + 1] == Event::SampleVec(x.r_skip));
    assert(hy[l + 1] == Event::SampleVec(y.r_skip));
    assert(x.r_skip == y.r_skip);
    lemma_obeys_at(hx, h0.len(), rule, l + 2);
    lemma_obeys_at(hy, h0.len(), rule, l + 2);
    assert(hx.take(l + 2) =~= hy.take(l + 2));
    assert(hx[l + 2] == Event::SampleVec(x.r_outer));
    assert(hy[l + 2] == Event::SampleVec(y.r_outer));
    assert(x.r_outer == y.r_outer);
    assert(x.point(k) == y.point(k));
    let r = choose|r: &[F128]|
        r@ == x.point(k) && #[trigger] call_ensures(
            kernels.round1,
            (mode, a, b, c, m, r, padding),
            x.round1,
        );
    let s = choose|r: &[F128]|
        r@ == y.point(k) && #[trigger] call_ensures(
            kernels.round1,
            (mode, a, b, c, m, r, padding),
            y.round1,
        );
    assert(r@ == s@);
    assert(call_ensures(kernels.round1, (mode, a, b, c, m, r, padding), x.round1));
    assert(call_ensures(kernels.round1, (mode, a, b, c, m, s, padding), y.round1));
    assert(x.round1.ab@ == y.round1.ab@ && x.round1.c@ == y.round1.c@);
    lemma_obeys_at(hx, h0.len(), rule, l + 5);
    lemma_obeys_at(hy, h0.len(), rule, l + 5);
    assert(hx.take(l + 5) =~= hy.take(l + 5));
    assert(hx[l + 5] == Event::Sample(x.z));
    assert(hy[l + 5] == Event::Sample(y.z));
    assert(x.z == y.z);
    let v = choose|v: &[F128]|
        v@ == scaled(k.c_s, x.round1.c@) && #[trigger] call_ensures(
            kernels.interpolate,
            (v, x.z),
            x.c_eval,
        );
    let w = choose|v: &[F128]|
        v@ == scaled(k.c_s, y.round1.c@) && #[trigger] call_ensures(
            kernels.interpolate,
            (v, y.z),
            y.c_eval,
        );
    assert(v@ == w@);
    assert(call_ensures(kernels.interpolate, (v, x.z), x.c_eval));
    assert(call_ensures(kernels.interpolate, (w, x.z), y.c_eval));
    assert(call_ensures(kernels.fold_table, (x.z,), x.table));
    assert(call_ensures(kernels.fold_table, (x.z,), y.table));
    assert(x.head_events(k) =~= y.head_events(k));
}

/// The rounds of the host are determined by the transcript before them.
proof fn lemma_rounds_unique(
    a: Seq<F128>,
    b: Seq<F128>,
    point: Seq<F128>,
    before: Seq<Event>,
    x_messages: Seq<(F128, F128)>,
    x_rhos: Seq<F128>,
    x_rest: Seq<Event>,
    y_messages: Seq<(F128, F128)>,
    y_rhos: Seq<F128>,
    y_rest: Seq<Event>,
    n: int,
    j: int,
    from: nat,
    rule: Rule,
)
    requires
        0 <= j <= n,
        x_messages.len() == n,
        y_messages.len() == n,
        x_rhos.len() == n,
        y_rhos.len() == n,
        from <= before.len(),
        forall|i: int|
            0 <= i < n ==> #[trigger] x_messages[i] == host_message(a, b, point, x_rhos, i),
        forall|i: int|
            0 <= i < n ==> #[trigger] y_messages[i] == host_message(a, b, point, y_rhos, i),
        obeys(before + round_events(x_messages, x_rhos, n) + x_rest, from, rule),
        obeys(before + round_events(y_messages, y_rhos, n) + y_rest, from, rule),
    ensures
        forall|i: int| 0 <= i < j ==> x_messages[i] == y_messages[i],
        forall|i: int| 0 <= i < j ==> x_rhos[i] == y_rhos[i],
        round_events(x_messages, x_rhos, j) == round_events(y_messages, y_rhos, j),
    decreases j,
{
    if j > 0 {
        let i = j - 1;
        lemma_rounds_unique(
            a,
            b,
            point,
            before,
            x_messages,
            x_rhos,
            x_rest,
            y_messages,
            y_rhos,
            y_rest,
            n,
            i,
            from,
            rule,
        );
        lemma_tail_plane_prefix(a, x_rhos, y_rhos, 0, i);
        lemma_tail_plane_prefix(b, x_rhos, y_rhos, 0, i);
        assert(x_messages[i] == host_message(a, b, point, x_rhos, i));
        assert(y_messages[i] == host_message(a, b, point, y_rhos, i));
        assert(x_messages[i] == y_messages[i]);
        let ex = round_events(x_messages, x_rhos, n);
        let ey = round_events(y_messages, y_rhos, n);
        lemma_round_challenge(x_messages, x_rhos, n, i);
        lemma_round_challenge(y_messages, y_rhos, n, i);
        let at = before.len() + 3 * i + 2;
        let (hx, hy) = (before + ex + x_rest, before + ey + y_rest);
        lemma_obeys_at(hx, from, rule, at);
        lemma_obeys_at(hy, from, rule, at);
        assert(hx.take(at) =~= before + ex.take(3 * i + 2));
        assert(hy.take(at) =~= before + ey.take(3 * i + 2));
        assert(hx[at] == ex[3 * i + 2] && hy[at] == ey[3 * i + 2]);
        assert(x_rhos[i] == y_rhos[i]);
    }
}

/// The result of the host is determined by its inputs, the answers of the transcript
/// and the answers of the kernels: two runs with equal ones give equal proofs, claims
/// and first-round vectors, and leave equal transcripts.
pub proof fn law_host_zerocheck_is_unique<R, I, T>(
    kernels: SkipKernels<R, I, T>,
    mode: Round1Mode,
    a: &[u8],
    b: &[u8],
    c: &[u8],
    m: usize,
    padding: &PaddingSpec,
    h0: Seq<Event>,
    x_history: Seq<Event>,
    x_proof: ZerocheckProof,
    x_claim: ZerocheckClaim,
    x_vector: Seq<F128>,
    y_history: Seq<Event>,
    y_proof: ZerocheckProof,
    y_claim: ZerocheckClaim,
    y_vector: Seq<F128>,
    rule: Rule,
) where
    R: Fn(Option<Round1Mode>, &[u8], &[u8], &[u8], usize, &[F128], &PaddingSpec) -> Round1Output,
    I: Fn(&[F128], F128) -> F128,
    T: Fn(F128) -> UniSkipFoldTable,

    requires
        skip_kernels_functional(kernels, a, b, c, m, padding),
        m >= K_SKIP,
        host_zerocheck(
            kernels,
            mode,
            a,
            b,
            c,
            m,
            padding,
            h0,
            x_history,
            x_proof,
            x_claim,
            x_vector,
        ),
        host_zerocheck(
            kernels,
            mode,
            a,
            b,
            c,
            m,
            padding,
            h0,
            y_history,
            y_proof,
            y_claim,
            y_vector,
        ),
        obeys(x_history, h0.len(), rule),
        obeys(y_history, h0.len(), rule),
    ensures
        x_history == y_history,
        x_proof@ == y_proof@,
        x_claim@ == y_claim@,
        x_vector == y_vector,
{
    let k = kernels.constants;
    let n = m - K_SKIP;
    let x = choose|run: AbRun| #[trigger]
        host_answered(
            kernels,
            mode,
            a,
            b,
            c,
            m,
            padding,
            h0,
            run,
            x_history,
            x_proof,
            x_claim,
            x_vector,
        );
    let y = choose|run: AbRun| #[trigger]
        host_answered(
            kernels,
            mode,
            a,
            b,
            c,
            m,
            padding,
            h0,
            run,
            y_history,
            y_proof,
            y_claim,
            y_vector,
        );
    let x_end = seq![
        Event::Observe(x_proof.final_a_eval),
        Event::Observe(x_proof.final_b_eval),
    ];
    let y_end = seq![
        Event::Observe(y_proof.final_a_eval),
        Event::Observe(y_proof.final_b_eval),
    ];
    let ex = round_events(x.messages, x.rhos, n);
    let ey = round_events(y.messages, y.rhos, n);
    assert(x_history =~= h0 + x.head_events(k) + (ex + x_end));
    assert(y_history =~= h0 + y.head_events(k) + (ey + y_end));
    lemma_head_unique(
        kernels,
        Some(mode),
        a,
        b,
        c,
        m,
        padding,
        h0,
        x,
        ex + x_end,
        y,
        ey + y_end,
        rule,
    );
    let before = h0 + x.head_events(k);
    assert(x_history =~= before + ex + x_end);
    assert(y_history =~= before + ey + y_end);
    let a_plane = folded_plane(x.table.data@, a@, *padding);
    let b_plane = folded_plane(x.table.data@, b@, *padding);
    lemma_rounds_unique(
        a_plane,
        b_plane,
        x.point(k),
        before,
        x.messages,
        x.rhos,
        x_end,
        y.messages,
        y.rhos,
        y_end,
        n,
        n,
        h0.len(),
        rule,
    );
    assert(x.messages =~= y.messages);
    assert(x.rhos =~= y.rhos);
}

/// A faithful provider's run is one of the host.
pub proof fn law_faithful_run_is_the_hosts(
    run: AbRun,
    constants: ProtocolConstants,
    a: Seq<u8>,
    b: Seq<u8>,
    m: usize,
    padding: PaddingSpec,
    h0: Seq<Event>,
    c0: Seq<AbCall>,
    history: Seq<Event>,
    calls: Seq<AbCall>,
    proof: ZerocheckProof,
    claim: ZerocheckClaim,
)
    requires
        19 <= m,
        proved(run, constants, a, b, m, padding, h0, c0, history, calls, proof, claim),
        ab_faithful(
            run,
            constants,
            m,
            folded_plane(run.table.data@, a, padding),
            folded_plane(run.table.data@, b, padding),
        ),
    ensures
        host_run(run, constants, a, b, m, padding, h0, history, proof, claim),
{
    let n = m - K_SKIP;
    let k = resident_rounds(m);
    let rhos = run.rhos;
    let pa = folded_plane(run.table.data@, a, padding);
    let pb = folded_plane(run.table.data@, b, padding);
    assert forall|i: int| 0 <= i < n implies #[trigger] run.messages[i] == host_message(
        pa,
        pb,
        run.point(constants),
        rhos,
        i,
    ) by {
        if i > k {
            law_folds_compose(pa, rhos, 0, k, i);
            law_folds_compose(pb, rhos, 0, k, i);
        }
    }
    law_folds_compose(pa, rhos, 0, k, n);
    law_folds_compose(pb, rhos, 0, k, n);
}

pub(crate) proof fn lemma_tail_length(plane: Seq<F128>, rhos: Seq<F128>, n: nat, j: int)
    requires
        plane.len() == pow2(n),
        0 <= j <= n,
    ensures
        tail_plane(plane, rhos, 0, j).len() == pow2((n - j) as nat),
    decreases j,
{
    if j > 0 {
        lemma_tail_length(plane, rhos, n, j - 1);
        lemma_pow2_unfold((n - j + 1) as nat);
    }
}

/// A log of folds that the processor provider answered is a faithful one, whatever fault
/// it has: its messages and its planes are those of the host, and it has counted every
/// fold.
pub proof fn law_processor_ab_log_is_faithful(
    before: Seq<AbCall>,
    point: Seq<F128>,
    messages: Seq<(F128, F128)>,
    rhos: Seq<F128>,
    j: int,
    fault: Fault,
)
    requires
        0 <= j,
        ab_log_fits(before + advance_calls(point, messages, rhos, j), fault),
        ab_state(before, fault).advanced + j <= usize::MAX,
    ensures
        ({
            let start = ab_state(before, fault);
            let end = ab_state(before + advance_calls(point, messages, rhos, j), fault);
            &&& end.a == tail_plane(start.a, rhos, 0, j)
            &&& end.b == tail_plane(start.b, rhos, 0, j)
            &&& end.advanced == start.advanced + j
            &&& end.produced == start.produced
            &&& end.finished == start.finished
            &&& forall|i: int|
                1 <= i <= j ==> #[trigger] messages[i] == host_message(
                    start.a,
                    start.b,
                    point,
                    rhos,
                    i,
                )
        }),
    decreases j,
{
    let log = before + advance_calls(point, messages, rhos, j);
    if j == 0 {
        assert(log =~= before);
    } else {
        let fewer = before + advance_calls(point, messages, rhos, j - 1);
        assert(log.drop_last() =~= fewer);
        law_processor_ab_log_is_faithful(before, point, messages, rhos, j - 1, fault);
        assert(log.last() == AbCall::Advance {
            rho: rhos[j - 1],
            r: round_point(point, j),
            reply: Ok(messages[j]),
        });
        assert(ab_state(fewer, fault).fits(log.last(), fault));
    }
}

/// A faultless processor provider does not fail after its opening call.
proof fn lemma_processor_does_not_fail(
    e: String,
    m: usize,
    point: Seq<F128>,
    messages: Seq<(F128, F128)>,
    rhos: Seq<F128>,
    before: Seq<AbCall>,
    history: Seq<Event>,
    calls: Seq<AbCall>,
)
    requires
        19 <= m,
        point.len() == m,
        ab_log_fits(before + calls, Fault::Absent),
        ab_state(before, Fault::Absent).advanced + resident_rounds(m) <= usize::MAX,
        ab_state(before, Fault::Absent).a.len() == pow2((m - K_SKIP) as nat),
        ab_state(before, Fault::Absent).b.len() == pow2((m - K_SKIP) as nat),
    ensures
        !resident_failure(e, resident_rounds(m), point, messages, rhos, history, calls),
{
    if resident_failure(e, resident_rounds(m), point, messages, rhos, history, calls) {
        let n = (m - K_SKIP) as nat;
        let start = ab_state(before, Fault::Absent);
        let log = before + calls;
        let j: int = if calls.last() is Advance {
            rhos.len() - 1
        } else {
            resident_rounds(m)
        };
        let fewer = before + advance_calls(point, messages, rhos, j);
        assert(log.drop_last() =~= fewer);
        assert(log.last() == calls.last());
        law_processor_ab_log_is_faithful(before, point, messages, rhos, j, Fault::Absent);
        lemma_tail_length(start.a, rhos, n, j);
        lemma_tail_length(start.b, rhos, n, j);
        let state = ab_state(fewer, Fault::Absent);
        assert(state.fits(calls.last(), Fault::Absent));
        if calls.last() is Advance {
            lemma_pow2_unfold((n - j) as nat);
            let next = state.step(calls.last(), Fault::Absent);
            assert(next.a == fold(state.a, rhos[j]));
            assert(round_point(point, j + 1).len() == n - j - 1);
            assert(planes_match(next.a, next.b, round_point(point, j + 1)));
        } else {
            lemma2_to64();
            assert(state.a.len() == TAIL_LEN && state.b.len() == TAIL_LEN);
        }
        assert(false);
    }
}

/// A prover with a faultless processor provider gives what the host gives alone, and
/// the provider has produced once, folded once for each of its rounds, finished once
/// and given its planes away.
pub proof fn law_processor_provider_gives_the_hosts_result<R, I, T>(
    kernels: SkipKernels<R, I, T>,
    mode: Round1Mode,
    a: &[u8],
    b: &[u8],
    c: &[u8],
    m: usize,
    padding: &PaddingSpec,
    h0: Seq<Event>,
    c0: Seq<AbCall>,
    history: Seq<Event>,
    calls: Seq<AbCall>,
    res: Result<(ZerocheckProof, ZerocheckClaim, Vec<F128>), String>,
) where
    R: Fn(Option<Round1Mode>, &[u8], &[u8], &[u8], usize, &[F128], &PaddingSpec) -> Round1Output,
    I: Fn(&[F128], F128) -> F128,
    T: Fn(F128) -> UniSkipFoldTable,

    requires
        19 <= m,
        a@.len() == pow2(m as nat) / 8,
        b@.len() == a@.len(),
        outcome(
            kernels,
            Some(mode),
            a,
            b,
            c,
            m,
            padding,
            h0,
            c0,
            history,
            calls,
            captured(res),
        ),
        ab_log_fits(calls, Fault::Absent),
        ab_state(c0, Fault::Absent).produced < usize::MAX,
        ab_state(c0, Fault::Absent).advanced + resident_rounds(m) <= usize::MAX,
        ab_state(c0, Fault::Absent).finished < usize::MAX,
    ensures
        res matches Ok((proof, claim, s_hat_v)) && host_zerocheck(
            kernels,
            mode,
            a,
            b,
            c,
            m,
            padding,
            h0,
            history,
            proof,
            claim,
            s_hat_v@,
        ),
        ({
            let start = ab_state(c0, Fault::Absent);
            let end = ab_state(calls, Fault::Absent);
            &&& end.produced == start.produced + 1
            &&& end.advanced == start.advanced + resident_rounds(m)
            &&& end.finished == start.finished + 1
            &&& end.a == Seq::<F128>::empty()
            &&& end.b == Seq::<F128>::empty()
        }),
{
    let k = kernels.constants;
    let rounds = resident_rounds(m);
    let answer = captured(res);
    let run = choose|run: AbRun|
        {
            &&& #[trigger] kernels_answered(kernels, Some(mode), a, b, c, m, padding, run)
            &&& match answer {
                Ok((proof, claim, s_hat_v)) => {
                    &&& proved(
                        run,
                        k,
                        a@,
                        b@,
                        m,
                        *padding,
                        h0,
                        c0,
                        history,
                        calls,
                        proof,
                        claim,
                    )
                    &&& s_hat_v == Some(run.round1.s_hat_v)
                },
                Err(e) => abandoned(run, k, a@, b@, m, *padding, h0, c0, history, calls, e),
            }
        };
    let point = run.point(k);
    assert(point.len() == m);
    lemma_row_bytes(m as nat);
    let produce = run.produce_call(k, a@, b@, m, *padding, Ok(run.messages[0]));
    let before = c0.push(produce);
    lemma_ab_log_push(c0, produce, Fault::Absent);
    let start = ab_state(before, Fault::Absent);
    match res {
        Ok((proof, claim, s_hat_v)) => {
            let folded = before + advance_calls(point, run.messages, run.rhos, rounds);
            let finish = AbCall::Finish { planes: Ok((run.a_tail, run.b_tail)) };
            assert(calls =~= folded.push(finish));
            lemma_ab_log_push(folded, finish, Fault::Absent);
            lemma_ab_log_prefix(before, calls, Fault::Absent);
            law_processor_ab_log_is_faithful(
                before,
                point,
                run.messages,
                run.rhos,
                rounds,
                Fault::Absent,
            );
            assert(ab_faithful(run, k, m, start.a, start.b));
            law_faithful_run_is_the_hosts(
                run,
                k,
                a@,
                b@,
                m,
                *padding,
                h0,
                c0,
                history,
                calls,
                proof,
                claim,
            );
            assert(host_answered(
                kernels,
                mode,
                a,
                b,
                c,
                m,
                padding,
                h0,
                run,
                history,
                proof,
                claim,
                s_hat_v@,
            ));
        },
        Err(e) => {
            let refused = run.produce_call(k, a@, b@, m, *padding, Err(e));
            lemma_ab_log_push(c0, refused, Fault::Absent);
            assert(resident_failed(
                e,
                rounds,
                point,
                run.messages,
                run.rhos,
                h0 + run.head_events(k),
                before,
                history,
                calls,
            ));
            let (more, more_calls) = choose|more: Seq<Event>, more_calls: Seq<AbCall>|
                {
                    &&& history == h0 + run.head_events(k) + more
                    &&& calls == before + more_calls
                    &&& #[trigger] resident_failure(
                        e,
                        rounds,
                        point,
                        run.messages,
                        run.rhos,
                        more,
                        more_calls,
                    )
                };
            lemma_processor_does_not_fail(
                e,
                m,
                point,
                run.messages,
                run.rhos,
                before,
                more,
                more_calls,
            );
        },
    }
}

pub(crate) proof fn lemma_ab_log_prefix(start: Seq<AbCall>, log: Seq<AbCall>, fault: Fault)
    requires
        ab_log_fits(log, fault),
        start.is_prefix_of(log),
    ensures
        ab_log_fits(start, fault),
    decreases log.len(),
{
    if start.len() == log.len() {
        assert(start =~= log);
    } else {
        assert(start.is_prefix_of(log.drop_last()));
        lemma_ab_log_prefix(start, log.drop_last(), fault);
    }
}

/// With a faultless processor provider, equal transcripts and kernels that answer
/// equal arguments equally, the prover gives the proof, the claim, the first-round
/// vector and the transcript that the host gives alone.
pub proof fn law_resident_zerocheck_is_the_hosts<R, I, T>(
    kernels: SkipKernels<R, I, T>,
    mode: Round1Mode,
    a: &[u8],
    b: &[u8],
    c: &[u8],
    m: usize,
    padding: &PaddingSpec,
    h0: Seq<Event>,
    c0: Seq<AbCall>,
    history: Seq<Event>,
    calls: Seq<AbCall>,
    res: Result<(ZerocheckProof, ZerocheckClaim, Vec<F128>), String>,
    host_history: Seq<Event>,
    host: (ZerocheckProof, ZerocheckClaim, Vec<F128>),
    rule: Rule,
) where
    R: Fn(Option<Round1Mode>, &[u8], &[u8], &[u8], usize, &[F128], &PaddingSpec) -> Round1Output,
    I: Fn(&[F128], F128) -> F128,
    T: Fn(F128) -> UniSkipFoldTable,

    requires
        19 <= m,
        a@.len() == pow2(m as nat) / 8,
        b@.len() == a@.len(),
        skip_kernels_functional(kernels, a, b, c, m, padding),
        outcome(
            kernels,
            Some(mode),
            a,
            b,
            c,
            m,
            padding,
            h0,
            c0,
            history,
            calls,
            captured(res),
        ),
        ab_log_fits(calls, Fault::Absent),
        ab_state(c0, Fault::Absent).produced < usize::MAX,
        ab_state(c0, Fault::Absent).advanced + resident_rounds(m) <= usize::MAX,
        ab_state(c0, Fault::Absent).finished < usize::MAX,
        host_zerocheck(
            kernels,
            mode,
            a,
            b,
            c,
            m,
            padding,
            h0,
            host_history,
            host.0,
            host.1,
            host.2@,
        ),
        obeys(history, h0.len(), rule),
        obeys(host_history, h0.len(), rule),
    ensures
        history == host_history,
        res matches Ok((proof, claim, s_hat_v)) && proof@ == host.0@ && claim@ == host.1@
            && s_hat_v@ == host.2@,
{
    law_processor_provider_gives_the_hosts_result(
        kernels,
        mode,
        a,
        b,
        c,
        m,
        padding,
        h0,
        c0,
        history,
        calls,
        res,
    );
    if let Ok((proof, claim, s_hat_v)) = res {
        law_host_zerocheck_is_unique(
            kernels,
            mode,
            a,
            b,
            c,
            m,
            padding,
            h0,
            history,
            proof,
            claim,
            s_hat_v@,
            host_history,
            host.0,
            host.1,
            host.2@,
            rule,
        );
    }
}

} // verus!
